use pong_rollback::input::BoxInput;
use pong_rollback::wire::{decode, encode, Message, CHECKSUM_LEN, CHECKSUM_TAG, INPUT_LEN, INPUT_TAG};

#[test]
fn input_message_has_the_documented_layout() {
    let m = Message::Input { handle: 0x0102_0304, frame: 5, input: BoxInput { inp: 1, inp2: -1 } };
    let bytes = encode(&m);
    let mut expected = vec![1u8];
    expected.extend_from_slice(&[0x04, 0x03, 0x02, 0x01]);
    expected.extend_from_slice(&[5, 0, 0, 0]);
    expected.extend_from_slice(&[1, 0, 0, 0, 0, 0, 0, 0]);
    expected.extend_from_slice(&[0xff; 8]);
    assert_eq!(bytes, expected);
    assert_eq!(bytes.len(), INPUT_LEN);
    assert_eq!(INPUT_LEN, 25);
    assert_eq!(INPUT_TAG, 1);
}

#[test]
fn checksum_message_has_the_documented_layout() {
    let m = Message::Checksum { frame: 0x0a0b, checksum: 0x1122_3344_5566_7788 };
    let bytes = encode(&m);
    assert_eq!(bytes, vec![2, 0x0b, 0x0a, 0, 0, 0x88, 0x77, 0x66, 0x55, 0x44, 0x33, 0x22, 0x11]);
    assert_eq!(bytes.len(), CHECKSUM_LEN);
    assert_eq!(CHECKSUM_TAG, 2);
}

#[test]
fn layout_is_that_of_little_endian_numbers() {
    let m = Message::Input {
        handle: 7,
        frame: 123_456,
        input: BoxInput { inp: -9_876_543_210, inp2: i64::MIN },
    };
    let bytes = encode(&m);
    assert_eq!(&bytes[1..5], &7u32.to_le_bytes());
    assert_eq!(&bytes[5..9], &123_456i32.to_le_bytes());
    assert_eq!(&bytes[9..17], &(-9_876_543_210i64).to_le_bytes());
    assert_eq!(&bytes[17..25], &i64::MIN.to_le_bytes());
}

#[test]
fn decoding_gives_back_what_was_encoded() {
    let messages = vec![
        Message::Input { handle: 0, frame: 0, input: BoxInput { inp: 0, inp2: 0 } },
        Message::Input { handle: u32::MAX, frame: i32::MAX, input: BoxInput { inp: i64::MAX, inp2: i64::MIN } },
        Message::Input { handle: 1, frame: 77, input: BoxInput { inp: -1, inp2: 1 } },
        Message::Checksum { frame: 0, checksum: 0 },
        Message::Checksum { frame: i32::MAX, checksum: u64::MAX },
    ];
    for m in messages {
        assert_eq!(decode(&encode(&m)), Some(m));
    }
}

#[test]
fn frames_of_wrong_size_are_dropped() {
    let good = encode(&Message::Input { handle: 1, frame: 2, input: BoxInput { inp: 3, inp2: 4 } });
    assert_eq!(decode(&vec![]), None);
    assert_eq!(decode(&good[..24].to_vec()), None);
    let mut long = good.clone();
    long.push(0);
    assert_eq!(decode(&long), None);
    let sum = encode(&Message::Checksum { frame: 2, checksum: 3 });
    assert_eq!(decode(&sum[..12].to_vec()), None);
}

#[test]
fn frames_with_unknown_tag_are_dropped() {
    let mut bytes = encode(&Message::Input { handle: 1, frame: 2, input: BoxInput { inp: 3, inp2: 4 } });
    bytes[0] = 0;
    assert_eq!(decode(&bytes), None);
    bytes[0] = 2;
    assert_eq!(decode(&bytes), None);
    let mut sum = encode(&Message::Checksum { frame: 2, checksum: 3 });
    sum[0] = 1;
    assert_eq!(decode(&sum), None);
}

#[test]
fn frames_with_unrepresentable_tick_are_dropped() {
    let mut bytes = encode(&Message::Input { handle: 1, frame: i32::MAX, input: BoxInput { inp: 3, inp2: 4 } });
    assert!(decode(&bytes).is_some());
    bytes[8] = 0x80;
    assert_eq!(decode(&bytes), None);
    let mut sum = encode(&Message::Checksum { frame: 0, checksum: 3 });
    sum[4] = 0xff;
    assert_eq!(decode(&sum), None);
}

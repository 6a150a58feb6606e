//! The byte layout of what peers send each other.
//!
//! A message is one tag byte followed by fields of fixed width, every
//! number with its least significant byte first. The layout is the same on
//! every machine.

use vstd::prelude::*;
use crate::input::{BoxInput, Frame};

verus! {

/// Tag of a message that carries one participant's input for one tick.
pub const INPUT_TAG: u8 = 1;

/// Tag of a message that carries the checksum of the state before a tick.
pub const CHECKSUM_TAG: u8 = 2;

/// Length of an input message: tag, handle, tick and two coordinates.
pub const INPUT_LEN: usize = 25;

/// Length of a checksum message: tag, tick and checksum.
pub const CHECKSUM_LEN: usize = 13;

/// What a peer sends.
#[derive(Copy, Clone, PartialEq, Eq, Debug, Structural)]
pub enum Message {
    /// The real input of participant `handle` for tick `frame`.
    Input { handle: u32, frame: Frame, input: BoxInput },
    /// The sender's checksum of the state before tick `frame`.
    Checksum { frame: Frame, checksum: u64 },
}

/// The number of values that `width` bytes can tell apart.
pub open spec fn limit(width: nat) -> nat
    decreases width,
{
    if width == 0 {
        1
    } else {
        256 * limit((width - 1) as nat)
    }
}

/// `value` in `width` bytes, least significant first.
pub open spec fn le_bytes(value: nat, width: nat) -> Seq<u8>
    decreases width,
{
    if width == 0 {
        Seq::empty()
    } else {
        seq![(value % 256) as u8] + le_bytes(value / 256, (width - 1) as nat)
    }
}

/// The number that `bytes` spell, least significant byte first.
pub open spec fn le_value(bytes: Seq<u8>) -> nat
    decreases bytes.len(),
{
    if bytes.len() == 0 {
        0
    } else {
        bytes[0] as nat + 256 * le_value(bytes.drop_first())
    }
}

/// A signed 64-bit number as the unsigned one with the same bits.
pub open spec fn unsigned(x: i64) -> nat {
    if x >= 0 {
        x as nat
    } else {
        (x + 0x1_0000_0000_0000_0000) as nat
    }
}

/// The signed 64-bit number with the bits of `v`.
pub open spec fn signed(v: nat) -> i64 {
    if v < 0x8000_0000_0000_0000 {
        v as i64
    } else {
        (v - 0x1_0000_0000_0000_0000) as i64
    }
}

impl Message {
    /// The tick is one that a session can number.
    pub open spec fn valid(&self) -> bool {
        match *self {
            Message::Input { handle, frame, input } => frame >= 0,
            Message::Checksum { frame, checksum } => frame >= 0,
        }
    }

    /// The bytes that stand for the message.
    pub open spec fn encoding(&self) -> Seq<u8> {
        match *self {
            Message::Input { handle, frame, input } => seq![INPUT_TAG] + le_bytes(handle as nat, 4) + le_bytes(
                frame as nat,
                4,
            ) + le_bytes(unsigned(input.inp), 8) + le_bytes(unsigned(input.inp2), 8),
            Message::Checksum { frame, checksum } => seq![CHECKSUM_TAG] + le_bytes(frame as nat, 4) + le_bytes(
                checksum as nat,
                8,
            ),
        }
    }
}

/// The message that `bytes` stand for, if they stand for one.
pub open spec fn decoded(bytes: Seq<u8>) -> Option<Message> {
    if exists|m: Message| m.valid() && #[trigger] m.encoding() == bytes {
        Some(choose|m: Message| m.valid() && #[trigger] m.encoding() == bytes)
    } else {
        None
    }
}

/// What four and eight bytes can tell apart.
pub proof fn lemma_limits()
    ensures
        limit(4) == 0x1_0000_0000,
        limit(8) == 0x1_0000_0000_0000_0000,
{
    reveal_with_fuel(limit, 9);
}

/// A number written in `width` bytes takes `width` bytes.
pub proof fn lemma_le_bytes_len(value: nat, width: nat)
    ensures
        le_bytes(value, width).len() == width,
    decreases width,
{
    if width > 0 {
        lemma_le_bytes_len(value / 256, (width - 1) as nat);
    }
}

/// Reading back what was written gives the number, if it fits the width.
pub proof fn lemma_le_value_of_bytes(value: nat, width: nat)
    requires
        value < limit(width),
    ensures
        le_value(le_bytes(value, width)) == value,
    decreases width,
{
    if width > 0 {
        let rest = le_bytes(value / 256, (width - 1) as nat);
        lemma_le_value_of_bytes(value / 256, (width - 1) as nat);
        assert(le_bytes(value, width).drop_first() =~= rest);
    }
}

/// What bytes spell is below the limit of their number.
pub proof fn lemma_le_value_bound(bytes: Seq<u8>)
    ensures
        le_value(bytes) < limit(bytes.len()),
    decreases bytes.len(),
{
    if bytes.len() > 0 {
        lemma_le_value_bound(bytes.drop_first());
    }
}

/// Writing the number that bytes spell gives those bytes.
pub proof fn lemma_le_bytes_of_value(bytes: Seq<u8>)
    ensures
        le_bytes(le_value(bytes), bytes.len()) == bytes,
    decreases bytes.len(),
{
    if bytes.len() > 0 {
        lemma_le_bytes_of_value(bytes.drop_first());
        let rest = le_value(bytes.drop_first());
        let value = le_value(bytes);
    }
}

/// A signed number is found again from its bits.
pub proof fn law_signed_from_bits(x: i64)
    ensures
        unsigned(x) < 0x1_0000_0000_0000_0000,
        signed(unsigned(x)) == x,
{
}

/// Bits are found again from the signed number that they spell.
pub proof fn law_bits_from_signed(v: nat)
    requires
        v < 0x1_0000_0000_0000_0000,
    ensures
        unsigned(signed(v)) == v,
{
}

pub(crate) fn to_unsigned(x: i64) -> (v: u64)
    ensures
        v == unsigned(x),
{
    if x >= 0 {
        x as u64
    } else {
        ((x - i64::MIN) as u64) + 0x8000_0000_0000_0000
    }
}

fn to_signed(v: u64) -> (x: i64)
    ensures
        x == signed(v as nat),
{
    if v < 0x8000_0000_0000_0000 {
        v as i64
    } else {
        ((v - 0x8000_0000_0000_0000) as i64) + i64::MIN
    }
}

/// Appends `value` in `width` bytes.
pub(crate) fn put_le(out: &mut Vec<u8>, value: u64, width: usize)
    ensures
        final(out)@ == old(out)@ + le_bytes(value as nat, width as nat),
{
    let ghost start = out@;
    let mut rest = value;
    let mut k: usize = 0;
    while k < width
        invariant
            k <= width,
            start + le_bytes(value as nat, width as nat) == out@ + le_bytes(rest as nat, (width - k) as nat),
        decreases width - k,
    {
        out.push((rest % 256) as u8);
        rest = rest / 256;
        k = k + 1;
    }
}

/// Reads the number that the `width` bytes from `at` on spell.
fn get_le(bytes: &Vec<u8>, at: usize, width: usize) -> (value: u64)
    requires
        width <= 8,
        at + width <= bytes@.len(),
    ensures
        value == le_value(bytes@.subrange(at as int, at + width)),
{
    let mut value: u64 = 0;
    let mut k: usize = width;
    let len = bytes.len();
    while k > 0
        invariant
            k <= width <= 8,
            at + width <= bytes@.len(),
            len == bytes@.len(),
            value == le_value(bytes@.subrange(at + k, at + width)),
            value < limit((width - k) as nat),
        decreases k,
    {
        k = k - 1;
        proof {
            let field = bytes@.subrange(at + k, at + width);
            assert(field.drop_first() =~= bytes@.subrange(at + k + 1, at + width));
            reveal_with_fuel(limit, 9);
        }
        value = value * 256 + (bytes[at + k] as u64);
    }
    value
}

/// The bytes to send for `message`.
pub fn encode(message: &Message) -> (bytes: Vec<u8>)
    requires
        message.valid(),
    ensures
        bytes@ == message.encoding(),
{
    let mut bytes: Vec<u8> = Vec::new();
    match *message {
        Message::Input { handle, frame, input } => {
            bytes.push(INPUT_TAG);
            put_le(&mut bytes, handle as u64, 4);
            put_le(&mut bytes, frame as u64, 4);
            put_le(&mut bytes, to_unsigned(input.inp), 8);
            put_le(&mut bytes, to_unsigned(input.inp2), 8);
        },
        Message::Checksum { frame, checksum } => {
            bytes.push(CHECKSUM_TAG);
            put_le(&mut bytes, frame as u64, 4);
            put_le(&mut bytes, checksum, 8);
        },
    }
    bytes
}

/// Where each field of an encoded message lies.
pub proof fn lemma_layout(message: Message)
    requires
        message.valid(),
    ensures
        message matches Message::Input { handle, frame, input } ==> {
            let bytes = message.encoding();
            &&& bytes.len() == INPUT_LEN
            &&& bytes[0] == INPUT_TAG
            &&& bytes.subrange(1, 5) == le_bytes(handle as nat, 4)
            &&& bytes.subrange(5, 9) == le_bytes(frame as nat, 4)
            &&& bytes.subrange(9, 17) == le_bytes(unsigned(input.inp), 8)
            &&& bytes.subrange(17, 25) == le_bytes(unsigned(input.inp2), 8)
        },
        message matches Message::Checksum { frame, checksum } ==> {
            let bytes = message.encoding();
            &&& bytes.len() == CHECKSUM_LEN
            &&& bytes[0] == CHECKSUM_TAG
            &&& bytes.subrange(1, 5) == le_bytes(frame as nat, 4)
            &&& bytes.subrange(5, 13) == le_bytes(checksum as nat, 8)
        },
{
    let bytes = message.encoding();
    match message {
        Message::Input { handle, frame, input } => {
            lemma_le_bytes_len(handle as nat, 4);
            lemma_le_bytes_len(frame as nat, 4);
            lemma_le_bytes_len(unsigned(input.inp), 8);
            lemma_le_bytes_len(unsigned(input.inp2), 8);
        },
        Message::Checksum { frame, checksum } => {
            lemma_le_bytes_len(frame as nat, 4);
            lemma_le_bytes_len(checksum as nat, 8);
        },
    }
}

/// No two messages are sent as the same bytes.
pub proof fn law_encoding_is_injective(a: Message, b: Message)
    requires
        a.valid(),
        b.valid(),
        a.encoding() == b.encoding(),
    ensures
        a == b,
{
    lemma_layout(a);
    lemma_layout(b);
    lemma_limits();
    match a {
        Message::Input { handle, frame, input } => {
            match b {
                Message::Input { handle: handle_b, frame: frame_b, input: input_b } => {
                    lemma_le_value_of_bytes(handle as nat, 4);
                    lemma_le_value_of_bytes(handle_b as nat, 4);
                    lemma_le_value_of_bytes(frame as nat, 4);
                    lemma_le_value_of_bytes(frame_b as nat, 4);
                    lemma_le_value_of_bytes(unsigned(input.inp), 8);
                    lemma_le_value_of_bytes(unsigned(input_b.inp), 8);
                    lemma_le_value_of_bytes(unsigned(input.inp2), 8);
                    lemma_le_value_of_bytes(unsigned(input_b.inp2), 8);
                },
                Message::Checksum { frame: frame_b, checksum } => {},
            }
        },
        Message::Checksum { frame, checksum } => {
            match b {
                Message::Input { handle, frame: frame_b, input } => {},
                Message::Checksum { frame: frame_b, checksum: checksum_b } => {
                    lemma_le_value_of_bytes(frame as nat, 4);
                    lemma_le_value_of_bytes(frame_b as nat, 4);
                    lemma_le_value_of_bytes(checksum as nat, 8);
                    lemma_le_value_of_bytes(checksum_b as nat, 8);
                },
            }
        },
    }
}

/// What was encoded is what decoding gives back.
pub proof fn law_decoding_inverts_encoding(message: Message)
    requires
        message.valid(),
    ensures
        decoded(message.encoding()) == Some(message),
{
    let bytes = message.encoding();
    let found = choose|m: Message| m.valid() && #[trigger] m.encoding() == bytes;
    law_encoding_is_injective(found, message);
}

/// Bytes that decode are the encoding of what they decode to.
pub proof fn law_decoded_is_encoded(bytes: Seq<u8>)
    ensures
        decoded(bytes) matches Some(m) ==> m.valid() && m.encoding() == bytes,
{
}

/// The message that `bytes` stand for. Bytes of another length, with an
/// unknown tag or with a tick that no session can number stand for none,
/// and `None` is returned.
pub fn decode(bytes: &Vec<u8>) -> (message: Option<Message>)
    ensures
        message == decoded(bytes@),
{
    proof {
        lemma_limits();
    }
    if bytes.len() == INPUT_LEN && bytes[0] == INPUT_TAG {
        let handle = get_le(bytes, 1, 4);
        let frame = get_le(bytes, 5, 4);
        let x = get_le(bytes, 9, 8);
        let y = get_le(bytes, 17, 8);
        proof {
            lemma_le_value_bound(bytes@.subrange(1, 5));
            lemma_le_value_bound(bytes@.subrange(5, 9));
            lemma_le_value_bound(bytes@.subrange(9, 17));
            lemma_le_value_bound(bytes@.subrange(17, 25));
        }
        if frame > 0x7fff_ffff {
            proof {
                assert forall|m: Message| m.valid() implies #[trigger] m.encoding() != bytes@ by {
                    lemma_layout(m);
                    if m.encoding() == bytes@ {
                        match m {
                            Message::Input { handle: h, frame: f, input } => {
                                lemma_le_value_of_bytes(f as nat, 4);
                            },
                            Message::Checksum { frame: f, checksum } => {},
                        }
                    }
                }
            }
            return None;
        }
        let message = Message::Input {
            handle: handle as u32,
            frame: frame as i32,
            input: BoxInput { inp: to_signed(x), inp2: to_signed(y) },
        };
        proof {
            lemma_layout(message);
            lemma_le_bytes_of_value(bytes@.subrange(1, 5));
            lemma_le_bytes_of_value(bytes@.subrange(5, 9));
            lemma_le_bytes_of_value(bytes@.subrange(9, 17));
            lemma_le_bytes_of_value(bytes@.subrange(17, 25));
            law_bits_from_signed(x as nat);
            law_bits_from_signed(y as nat);
            assert(message.encoding() =~= bytes@) by {
                let e = message.encoding();
                assert forall|i: int| 0 <= i < 25 implies e[i] == bytes@[i] by {
                    if 1 <= i < 5 {
                        assert(e[i] == e.subrange(1, 5)[i - 1]);
                        assert(bytes@[i] == bytes@.subrange(1, 5)[i - 1]);
                    } else if 5 <= i < 9 {
                        assert(e[i] == e.subrange(5, 9)[i - 5]);
                        assert(bytes@[i] == bytes@.subrange(5, 9)[i - 5]);
                    } else if 9 <= i < 17 {
                        assert(e[i] == e.subrange(9, 17)[i - 9]);
                        assert(bytes@[i] == bytes@.subrange(9, 17)[i - 9]);
                    } else if 17 <= i {
                        assert(e[i] == e.subrange(17, 25)[i - 17]);
                        assert(bytes@[i] == bytes@.subrange(17, 25)[i - 17]);
                    }
                }
            }
            law_decoding_inverts_encoding(message);
        }
        Some(message)
    } else if bytes.len() == CHECKSUM_LEN && bytes[0] == CHECKSUM_TAG {
        let frame = get_le(bytes, 1, 4);
        let checksum = get_le(bytes, 5, 8);
        proof {
            lemma_le_value_bound(bytes@.subrange(1, 5));
            lemma_le_value_bound(bytes@.subrange(5, 13));
        }
        if frame > 0x7fff_ffff {
            proof {
                assert forall|m: Message| m.valid() implies #[trigger] m.encoding() != bytes@ by {
                    lemma_layout(m);
                    if m.encoding() == bytes@ {
                        match m {
                            Message::Input { handle: h, frame: f, input } => {},
                            Message::Checksum { frame: f, checksum: c } => {
                                lemma_le_value_of_bytes(f as nat, 4);
                            },
                        }
                    }
                }
            }
            return None;
        }
        let message = Message::Checksum { frame: frame as i32, checksum };
        proof {
            lemma_layout(message);
            lemma_le_bytes_of_value(bytes@.subrange(1, 5));
            lemma_le_bytes_of_value(bytes@.subrange(5, 13));
            assert(message.encoding() =~= bytes@) by {
                let e = message.encoding();
                assert forall|i: int| 0 <= i < 13 implies e[i] == bytes@[i] by {
                    if 1 <= i < 5 {
                        assert(e[i] == e.subrange(1, 5)[i - 1]);
                        assert(bytes@[i] == bytes@.subrange(1, 5)[i - 1]);
                    } else if 5 <= i {
                        assert(e[i] == e.subrange(5, 13)[i - 5]);
                        assert(bytes@[i] == bytes@.subrange(5, 13)[i - 5]);
                    }
                }
            }
            law_decoding_inverts_encoding(message);
        }
        Some(message)
    } else {
        proof {
            assert forall|m: Message| m.valid() implies #[trigger] m.encoding() != bytes@ by {
                lemma_layout(m);
            }
        }
        None
    }
}

} // verus!

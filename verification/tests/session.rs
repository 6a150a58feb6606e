use pong_rollback::config::{PeerState, PlayerKind, SessionBuilder, SessionConfig, SyncError};
use pong_rollback::input::{BoxInput, InputStatus, LocalInput};
use pong_rollback::queue::Arrival;
use pong_rollback::session::{Receipt, Session};
use pong_rollback::sim::paddle_step;
use pong_rollback::wire::{decode, encode, Message};

/// A simulation whose state depends on every input of every tick, in order.
fn mix(state: &Vec<u8>, inputs: &Vec<BoxInput>) -> Vec<u8> {
    let mut bytes = [0u8; 8];
    bytes.copy_from_slice(&state[0..8]);
    let mut h = u64::from_le_bytes(bytes);
    for (p, i) in inputs.iter().enumerate() {
        h = h.wrapping_mul(31).wrapping_add((i.inp as u64).wrapping_mul(p as u64 + 1));
        h = h.wrapping_mul(31).wrapping_add(i.inp2 as u64);
    }
    h.to_le_bytes().to_vec()
}

fn two_players(window: usize, delay: usize) -> SessionConfig {
    SessionBuilder::new()
        .with_num_players(2)
        .with_max_prediction_window(window)
        .unwrap()
        .with_input_delay(delay)
        .with_fps(60)
        .unwrap()
        .add_player(PlayerKind::Local, 0)
        .unwrap()
        .add_player(PlayerKind::Remote, 1)
        .unwrap()
        .build()
        .unwrap()
}

fn local(t: i64) -> Vec<LocalInput> {
    vec![LocalInput { handle: 0, input: BoxInput { inp: t, inp2: 2 * t } }]
}

#[test]
fn late_input_rolls_back_to_the_same_state() {
    let zero = BoxInput { inp: 0, inp2: 0 };
    let real = BoxInput { inp: 7, inp2: -3 };

    // the input of tick 5 arrives when tick 9 is due
    let mut late = Session::new(two_players(12, 2), vec![0u8; 8], mix);
    for f in 2..5 {
        assert_eq!(late.add_remote_input(1, f, zero), Arrival::Taken);
    }
    for t in 0..9 {
        let report = late.advance_frame(&local(t)).unwrap();
        assert_eq!(report.frame, t as i32);
        assert_eq!(report.input_frame, t as i32 + 2);
        assert_eq!(report.rollback, None);
    }
    assert_eq!(late.confirmed(), 4);
    assert_eq!(late.add_remote_input(1, 5, real), Arrival::Taken);
    let report = late.advance_frame(&local(9)).unwrap();
    assert_eq!(report.rollback, Some(5));
    assert_eq!(report.frame, 9);
    assert_eq!(report.inputs[1].input, real);
    assert_eq!(report.inputs[1].status, InputStatus::Predicted);
    assert_eq!(report.inputs[0].status, InputStatus::Confirmed);
    assert_eq!(late.current(), 10);

    // the same inputs, all in time
    let mut timely = Session::new(two_players(12, 2), vec![0u8; 8], mix);
    for f in 2..5 {
        assert_eq!(timely.add_remote_input(1, f, zero), Arrival::Taken);
    }
    assert_eq!(timely.add_remote_input(1, 5, real), Arrival::Taken);
    for t in 0..10 {
        let report = timely.advance_frame(&local(t)).unwrap();
        assert_eq!(report.rollback, None);
    }
    assert_eq!(late.current_state(), timely.current_state());

    // and by hand
    let mut state = vec![0u8; 8];
    for t in 0..10i64 {
        let own = if t < 2 { zero } else { BoxInput { inp: t - 2, inp2: 2 * (t - 2) } };
        let other = if t < 5 { zero } else { real };
        state = mix(&state, &vec![own, other]);
    }
    assert_eq!(late.current_state(), &state);
}

#[test]
fn disconnected_peer_keeps_its_last_input() {
    let mut s = Session::new(two_players(3, 0), vec![0u8; 8], mix);
    let last = BoxInput { inp: 5, inp2: 6 };
    assert_eq!(s.add_remote_input(1, 0, last), Arrival::Taken);
    for t in 0..3 {
        s.advance_frame(&local(t)).unwrap();
    }
    // the window is used up
    assert_eq!(s.advance_frame(&local(3)).err(), Some(SyncError::PredictionWindowExceeded));
    assert_eq!(s.current(), 3);
    // once the peer has left, its last input stands and nothing is waited for
    assert_eq!(s.set_peer_state(1, PeerState::Disconnected), Ok(()));
    for t in 3..40 {
        let report = s.advance_frame(&local(t)).unwrap();
        assert_eq!(report.inputs[1].input, last);
        assert_eq!(report.inputs[1].status, InputStatus::Disconnected);
        assert_eq!(report.rollback, None);
    }
    assert_eq!(s.current(), 40);
    assert_eq!(s.confirmed(), 39);
    assert_eq!(s.add_remote_input(1, 1, last), Arrival::Dropped);
}

fn remote(v: i64) -> BoxInput {
    BoxInput { inp: 100 + v, inp2: -v }
}

/// Runs `ticks` ticks; the remote input for tick `f` arrives when tick `arrival(f)` is due.
fn run(ticks: i32, window: usize, delay: usize, arrival: &dyn Fn(i32) -> i32) -> Session<fn(&Vec<u8>, &Vec<BoxInput>) -> Vec<u8>> {
    let step: fn(&Vec<u8>, &Vec<BoxInput>) -> Vec<u8> = mix;
    let mut s = Session::new(two_players(window, delay), vec![0u8; 8], step);
    let mut sent = delay as i32;
    for t in 0..ticks {
        while sent < ticks + delay as i32 && arrival(sent) <= t {
            assert_eq!(s.add_remote_input(1, sent, remote(sent as i64)), Arrival::Taken);
            sent += 1;
        }
        let report = s.advance_frame(&local(t as i64)).unwrap();
        assert_eq!(report.frame, t);
        // never further ahead than the window allows, never behind
        assert!(s.confirmed() <= s.current());
        assert!(s.current() - s.confirmed() <= s.max_prediction());
        // nothing older than the window reaches back is kept
        let floor = std::cmp::max(0, s.confirmed() - s.max_prediction());
        assert!(s.snapshot_at(floor).is_some());
        assert!(s.snapshot_at(floor - 1).is_none());
        assert!(s.snapshot_at(s.current()).is_some());
        assert!(s.snapshot_at(s.current() + 1).is_none());
    }
    while sent < ticks + delay as i32 {
        assert_eq!(s.add_remote_input(1, sent, remote(sent as i64)), Arrival::Taken);
        sent += 1;
    }
    s
}

fn by_hand(ticks: i32, delay: i64) -> Vec<u8> {
    let zero = BoxInput { inp: 0, inp2: 0 };
    let mut state = vec![0u8; 8];
    for t in 0..ticks as i64 {
        let own = if t < delay { zero } else { BoxInput { inp: t - delay, inp2: 2 * (t - delay) } };
        let other = if t < delay { zero } else { remote(t) };
        state = mix(&state, &vec![own, other]);
    }
    state
}

#[test]
fn any_arrival_order_ends_in_the_sequential_state() {
    let arrivals: Vec<Box<dyn Fn(i32) -> i32>> = vec![
        Box::new(|f| f),             // just in time
        Box::new(|f| f - 3),         // early
        Box::new(|f| f + 1),         // always one tick late
        Box::new(|f| f + 5),         // always five ticks late
        Box::new(|f| f + (f % 4)),   // late by varying amounts
        Box::new(|f| (f / 6) * 6 + 6), // in bursts
    ];
    for delay in [0usize, 2] {
        for arrival in arrivals.iter() {
            let mut s = run(40, 8, delay, arrival.as_ref());
            // one more tick brings in what arrived last, and then all is confirmed
            s.advance_frame(&local(40)).unwrap();
            assert_eq!(s.current(), 41);
            assert_eq!(s.confirmed(), if delay == 0 { 39 } else { 41 });
            assert_eq!(s.snapshot_at(40).unwrap(), &by_hand(40, delay as i64));
        }
    }
}

#[test]
fn resimulating_correct_ticks_changes_nothing() {
    let mut s = run(20, 12, 2, &|f| f + 3);
    s.advance_frame(&local(20)).unwrap();
    let before = s.current_state().clone();
    let oldest = (0..=s.current()).find(|f| s.snapshot_at(*f).is_some()).unwrap();
    for from in oldest..=s.current() {
        assert!(s.resimulate(from));
        assert_eq!(s.current_state(), &before);
        assert_eq!(s.current(), 21);
    }
    assert!(!s.resimulate(oldest - 1));
    assert!(!s.resimulate(s.current() + 1));
    assert!(!s.resimulate(-1));
    assert_eq!(s.current_state(), &before);
}

#[test]
fn resimulating_takes_in_what_has_arrived() {
    let mut late = Session::new(two_players(8, 0), vec![0u8; 8], mix);
    for t in 0..4 {
        late.advance_frame(&local(t)).unwrap();
    }
    for f in 0..4 {
        assert_eq!(late.add_remote_input(1, f, remote(f as i64)), Arrival::Taken);
    }
    assert!(late.resimulate(0));
    assert_eq!(late.current_state(), &by_hand(4, 0));
}

#[test]
fn simulation_stalls_at_the_prediction_window() {
    let mut s = Session::new(two_players(4, 0), vec![0u8; 8], mix);
    for t in 0..3 {
        assert!(s.advance_frame(&local(t)).is_ok());
    }
    assert_eq!(s.confirmed(), -1);
    assert_eq!(s.current(), 3);
    let state = s.current_state().clone();
    assert_eq!(s.advance_frame(&local(3)).err(), Some(SyncError::PredictionWindowExceeded));
    assert_eq!(s.current(), 3);
    assert_eq!(s.current_state(), &state);
    // one confirmed tick lets one more tick through
    assert_eq!(s.add_remote_input(1, 0, remote(0)), Arrival::Taken);
    assert_eq!(s.confirmed(), 0);
    assert!(s.advance_frame(&local(3)).is_ok());
    assert_eq!(s.advance_frame(&local(4)).err(), Some(SyncError::PredictionWindowExceeded));
}

#[test]
fn window_of_one_is_lockstep() {
    let mut s = Session::new(two_players(1, 0), vec![0u8; 8], mix);
    assert_eq!(s.advance_frame(&local(0)).err(), Some(SyncError::PredictionWindowExceeded));
    assert_eq!(s.add_remote_input(1, 0, remote(0)), Arrival::Taken);
    let report = s.advance_frame(&local(0)).unwrap();
    assert_eq!(report.inputs[1].status, InputStatus::Confirmed);
    assert_eq!(s.advance_frame(&local(1)).err(), Some(SyncError::PredictionWindowExceeded));
}

#[test]
fn missing_or_foreign_local_input_is_a_configuration_error() {
    let mut s = Session::new(two_players(8, 0), vec![0u8; 8], mix);
    assert_eq!(s.advance_frame(&vec![]).err(), Some(SyncError::InvalidConfiguration));
    let own = LocalInput { handle: 0, input: remote(1) };
    let foreign = LocalInput { handle: 1, input: remote(1) };
    assert_eq!(s.advance_frame(&vec![foreign]).err(), Some(SyncError::InvalidConfiguration));
    assert_eq!(s.advance_frame(&vec![own, foreign]).err(), Some(SyncError::InvalidConfiguration));
    assert_eq!(s.advance_frame(&vec![own, own]).err(), Some(SyncError::InvalidConfiguration));
    assert_eq!(s.current(), 0);
    assert!(s.advance_frame(&vec![own]).is_ok());
    assert_eq!(s.current(), 1);
}

#[test]
fn new_session_has_simulated_nothing() {
    let s = Session::new(two_players(12, 2), vec![9u8; 8], mix);
    assert_eq!(s.current(), 0);
    assert_eq!(s.confirmed(), 0);
    assert_eq!(s.current_state(), &vec![9u8; 8]);
    assert_eq!(s.snapshot_at(0), Some(&vec![9u8; 8]));
    assert_eq!(s.snapshot_at(1), None);
    assert_eq!(s.player_count(), 2);
    assert_eq!(s.max_prediction(), 12);
    assert_eq!(s.delay(), 2);
    assert_eq!(s.tick_rate(), 60);
    assert!(s.room_left());
    assert_eq!(s.local_players(), vec![0]);
    assert_eq!(s.player_kind(0), Some(PlayerKind::Local));
    assert_eq!(s.player_kind(1), Some(PlayerKind::Remote));
    assert_eq!(s.player_kind(2), None);
    assert_eq!(s.peer_state(0), Some(PeerState::Connected));
    assert_eq!(s.peer_state(1), Some(PeerState::Connecting));
    assert_eq!(s.peer_state(2), None);
    let fresh = Session::new(two_players(12, 0), vec![9u8; 8], mix);
    assert_eq!(fresh.confirmed(), -1);
}

#[test]
fn local_input_takes_effect_after_the_delay() {
    let mut s = Session::new(two_players(12, 3), vec![0u8; 8], mix);
    for t in 0..6 {
        let report = s.advance_frame(&local(t + 1)).unwrap();
        assert_eq!(report.input_frame, t as i32 + 3);
        let expected = if t < 3 { BoxInput { inp: 0, inp2: 0 } } else { BoxInput { inp: t - 2, inp2: 2 * (t - 2) } };
        assert_eq!(report.inputs[0].input, expected);
        assert_eq!(report.inputs[0].status, InputStatus::Confirmed);
    }
}

#[test]
fn peers_compare_checksums_of_final_states_only() {
    let mut a = run(10, 8, 0, &|f| f + 2);
    let mut b = run(10, 8, 0, &|f| f);
    a.advance_frame(&local(10)).unwrap();
    b.advance_frame(&local(10)).unwrap();
    assert_eq!(a.confirmed(), 9);
    // the state before tick 10 is final on both sides and the same
    let sum = a.checksum_at(10).unwrap();
    assert_eq!(b.checksum_at(10), Some(sum));
    assert_eq!(b.compare_checksum(10, sum), Ok(true));
    // the state before tick 11 rests on a prediction
    assert_eq!(a.checksum_at(11), None);
    assert_eq!(a.compare_checksum(11, 1), Ok(false));
    // so does nothing that is no longer kept
    assert_eq!(a.compare_checksum(0, 1), Ok(false));
    assert_eq!(a.compare_checksum(-1, 1), Ok(false));
    // another checksum for a final state is a desync
    assert_eq!(
        b.compare_checksum(10, sum ^ 1),
        Err(SyncError::DesyncDetected { frame: 10, local_checksum: sum, remote_checksum: sum ^ 1 })
    );
    assert_eq!(sum, pong_rollback::checksum::checksum(a.snapshot_at(10).unwrap()));
}

#[test]
fn two_local_participants_need_no_network() {
    let config = SessionBuilder::new()
        .add_player(PlayerKind::Local, 0)
        .unwrap()
        .add_player(PlayerKind::Local, 1)
        .unwrap()
        .build()
        .unwrap();
    let mut s = Session::new(config, vec![0u8; 8], mix);
    assert_eq!(s.local_players(), vec![0, 1]);
    for t in 0..100 {
        let records = vec![
            LocalInput { handle: 1, input: remote(t) },
            LocalInput { handle: 0, input: BoxInput { inp: t, inp2: 2 * t } },
        ];
        let report = s.advance_frame(&records).unwrap();
        assert_eq!(report.rollback, None);
        assert_eq!(s.confirmed(), t as i32);
    }
    assert_eq!(s.current_state(), &by_hand(100, 0));
    assert_eq!(s.add_remote_input(1, 100, remote(0)), Arrival::Dropped);
    assert_eq!(s.set_peer_state(1, PeerState::Disconnected), Err(SyncError::InvalidConfiguration));
}

#[test]
fn frames_off_the_network_are_sequenced_by_their_tick() {
    let mut s = Session::new(two_players(8, 0), vec![0u8; 8], mix);
    let peer = vec![1usize];
    let frame = |f: i32| encode(&Message::Input { handle: 1, frame: f, input: remote(f as i64) });
    // out of order: the later one waits until its turn comes
    assert_eq!(s.receive(&peer, &frame(1)), Ok(Receipt::InputHeld));
    assert_eq!(s.confirmed(), -1);
    assert_eq!(s.receive(&peer, &frame(1)), Ok(Receipt::Dropped)); // a duplicate
    assert_eq!(s.receive(&peer, &frame(0)), Ok(Receipt::InputTaken));
    assert_eq!(s.receive(&peer, &frame(0)), Ok(Receipt::Dropped)); // a duplicate
    assert_eq!(s.receive(&peer, &frame(1)), Ok(Receipt::Dropped));
    // malformed
    assert_eq!(s.receive(&peer, &vec![1, 2, 3]), Ok(Receipt::Dropped));
    // not the sender's participant
    let own = encode(&Message::Input { handle: 0, frame: 0, input: remote(0) });
    assert_eq!(s.receive(&peer, &own), Ok(Receipt::Dropped));
    assert_eq!(s.receive(&vec![], &frame(2)), Ok(Receipt::Dropped));
    assert_eq!(s.receive(&vec![0], &frame(2)), Ok(Receipt::Dropped));
    s.advance_frame(&local(0)).unwrap();
    s.advance_frame(&local(1)).unwrap();
    assert_eq!(s.confirmed(), 1);
    assert_eq!(s.current_state(), &by_hand(2, 0));
}

#[test]
fn checksums_off_the_network_are_compared() {
    let mut s = run(6, 8, 0, &|f| f);
    s.advance_frame(&local(6)).unwrap();
    let peer = vec![1usize];
    let sum = s.checksum_at(6).unwrap();
    let agree = encode(&Message::Checksum { frame: 6, checksum: sum });
    let differ = encode(&Message::Checksum { frame: 6, checksum: !sum });
    let early = encode(&Message::Checksum { frame: 7, checksum: sum });
    assert_eq!(s.receive(&peer, &agree), Ok(Receipt::ChecksumAgreed));
    assert_eq!(s.receive(&peer, &early), Ok(Receipt::ChecksumUnchecked));
    assert_eq!(
        s.receive(&peer, &differ),
        Err(SyncError::DesyncDetected { frame: 6, local_checksum: sum, remote_checksum: !sum })
    );
    // the session goes on
    assert!(s.advance_frame(&local(7)).is_ok());
}

#[test]
fn two_peers_stay_in_step_over_a_late_and_lossy_line() {
    // peer a holds handle 0, peer b holds handle 1; what a sends reaches b three ticks late and the other way round
    let config = |own: usize| {
        let mut b = pong_rollback::lobby::game_settings(2);
        for h in 0..2 {
            b = b.add_player(if h == own { PlayerKind::Local } else { PlayerKind::Remote }, h).unwrap();
        }
        b.build().unwrap()
    };
    let mut a = Session::new(config(0), vec![0u8; 8], mix);
    let mut b = Session::new(config(1), vec![0u8; 8], mix);
    let mut to_a: Vec<(i32, Vec<u8>)> = Vec::new();
    let mut to_b: Vec<(i32, Vec<u8>)> = Vec::new();
    let mut rollbacks = 0;
    for t in 0..60i32 {
        for (due, bytes) in to_a.iter() {
            if *due == t {
                assert_eq!(a.receive(&vec![1], bytes), Ok(Receipt::InputTaken));
            }
        }
        for (due, bytes) in to_b.iter() {
            if *due == t {
                assert_eq!(b.receive(&vec![0], bytes), Ok(Receipt::InputTaken));
            }
        }
        let from_a = vec![LocalInput { handle: 0, input: BoxInput { inp: (t / 7) as i64, inp2: 1 } }];
        let from_b = vec![LocalInput { handle: 1, input: BoxInput { inp: 2, inp2: (t / 5) as i64 } }];
        let ra = a.advance_frame(&from_a).unwrap();
        let rb = b.advance_frame(&from_b).unwrap();
        if ra.rollback.is_some() {
            rollbacks += 1;
        }
        assert_eq!(ra.input_frame, rb.input_frame);
        for bytes in a.recent_inputs(0, 1) {
            to_b.push((t + 3, bytes));
        }
        for bytes in b.recent_inputs(1, 1) {
            to_a.push((t + 3, bytes));
        }
        // wherever both hold a final state for a tick, it is the same state
        for f in 0..=t + 1 {
            if let (Some(x), Some(y)) = (a.checksum_at(f), b.checksum_at(f)) {
                assert_eq!(x, y);
            }
        }
    }
    assert!(rollbacks > 0);
    assert!(a.confirmed() > 50);
    assert_eq!(a.confirmed(), b.confirmed());
    assert_eq!(a.snapshot_at(a.confirmed()), b.snapshot_at(a.confirmed()));
}

#[test]
fn paddle_simulation_keeps_the_inputs_of_the_last_tick() {
    let state = paddle_step(&vec![1, 2, 3], &vec![BoxInput { inp: 1, inp2: -1 }, BoxInput { inp: 258, inp2: 0 }]);
    let mut expected = Vec::new();
    expected.extend_from_slice(&1i64.to_le_bytes());
    expected.extend_from_slice(&(-1i64).to_le_bytes());
    expected.extend_from_slice(&258i64.to_le_bytes());
    expected.extend_from_slice(&0i64.to_le_bytes());
    assert_eq!(state, expected);
    assert_eq!(paddle_step(&vec![], &vec![]), Vec::<u8>::new());

    let mut s = Session::new(two_players(8, 0), vec![], paddle_step);
    assert_eq!(s.add_remote_input(1, 0, remote(0)), Arrival::Taken);
    s.advance_frame(&local(4)).unwrap();
    s.advance_frame(&local(5)).unwrap();
    assert_eq!(s.current_state(), &paddle_step(&vec![], &vec![BoxInput { inp: 5, inp2: 10 }, remote(0)]));
    assert_eq!(s.snapshot_at(1).unwrap(), &paddle_step(&vec![], &vec![BoxInput { inp: 4, inp2: 8 }, remote(0)]));
}

#[test]
fn inputs_in_any_order_end_in_the_same_state() {
    let orders: Vec<Vec<i32>> = vec![
        vec![0, 1, 2, 3, 4, 5, 6, 7],
        vec![7, 6, 5, 4, 3, 2, 1, 0],
        vec![1, 0, 3, 2, 5, 4, 7, 6],
        vec![4, 5, 6, 7, 0, 1, 2, 3],
        vec![0, 0, 2, 2, 1, 1, 7, 3, 3, 5, 4, 6, 6, 0],
    ];
    for order in orders {
        let mut s = Session::new(two_players(12, 0), vec![0u8; 8], mix);
        let mut next = 0;
        for t in 0..8 {
            // one frame arrives before each tick
            let f = order[next];
            s.add_remote_input(1, f, remote(f as i64));
            next += 1;
            s.advance_frame(&local(t)).unwrap();
        }
        while next < order.len() {
            let f = order[next];
            s.add_remote_input(1, f, remote(f as i64));
            next += 1;
        }
        s.advance_frame(&local(8)).unwrap();
        assert_eq!(s.confirmed(), 7);
        assert_eq!(s.snapshot_at(8).unwrap(), &by_hand(8, 0));
    }
}

#[test]
fn recent_inputs_are_sent_oldest_first() {
    let mut s = Session::new(two_players(8, 2), vec![0u8; 8], mix);
    // before the first tick only the zero records of the delay are there
    let first = s.recent_inputs(0, 10);
    assert_eq!(first.len(), 2);
    assert_eq!(
        decode(&first[1]),
        Some(Message::Input { handle: 0, frame: 1, input: BoxInput { inp: 0, inp2: 0 } })
    );
    for t in 0..5 {
        s.advance_frame(&local(t)).unwrap();
    }
    let messages = s.recent_inputs(0, 3);
    let decoded: Vec<Option<Message>> = messages.iter().map(|m| decode(m)).collect();
    assert_eq!(
        decoded,
        vec![
            Some(Message::Input { handle: 0, frame: 4, input: BoxInput { inp: 2, inp2: 4 } }),
            Some(Message::Input { handle: 0, frame: 5, input: BoxInput { inp: 3, inp2: 6 } }),
            Some(Message::Input { handle: 0, frame: 6, input: BoxInput { inp: 4, inp2: 8 } }),
        ]
    );
    assert_eq!(s.recent_inputs(0, 1).len(), 1);
    assert_eq!(s.recent_inputs(0, 100).len(), 7);
    // nothing for anybody else, and nothing if nothing is asked for
    assert!(s.recent_inputs(1, 3).is_empty());
    assert!(s.recent_inputs(2, 3).is_empty());
    assert!(s.recent_inputs(0, 0).is_empty());
    assert!(s.recent_inputs(0, -1).is_empty());
}

#[test]
fn only_inputs_that_are_still_kept_are_sent_again() {
    let mut s = run(40, 4, 0, &|f| f);
    s.advance_frame(&local(40)).unwrap();
    assert_eq!(s.confirmed(), 39);
    let oldest = 39 - 4;
    assert!(s.snapshot_at(oldest).is_some());
    assert!(s.snapshot_at(oldest - 1).is_none());
    let messages = s.recent_inputs(0, 1000);
    assert_eq!(messages.len(), (41 - oldest) as usize);
    assert_eq!(
        decode(&messages[0]),
        Some(Message::Input { handle: 0, frame: oldest, input: BoxInput { inp: oldest as i64, inp2: 2 * oldest as i64 } })
    );
}

#[test]
fn sending_inputs_again_makes_up_for_lost_frames() {
    let config = |own: usize| {
        let mut b = pong_rollback::lobby::game_settings(2);
        for h in 0..2 {
            b = b.add_player(if h == own { PlayerKind::Local } else { PlayerKind::Remote }, h).unwrap();
        }
        b.build().unwrap()
    };
    let mut a = Session::new(config(0), vec![0u8; 8], mix);
    let mut b = Session::new(config(1), vec![0u8; 8], mix);
    let mut stalls = 0;
    for t in 0..200i32 {
        let ra = a.advance_frame(&vec![LocalInput { handle: 0, input: BoxInput { inp: t as i64, inp2: 1 } }]);
        let rb = b.advance_frame(&vec![LocalInput { handle: 1, input: BoxInput { inp: 2, inp2: -(t as i64) } }]);
        if ra.is_err() || rb.is_err() {
            stalls += 1;
        }
        // two ticks of every three, whatever is sent gets lost; what arrives arrives newest first
        if t % 3 == 0 {
            let mut to_b = a.recent_inputs(0, 4);
            to_b.reverse();
            for bytes in to_b {
                assert!(b.receive(&vec![0], &bytes).is_ok());
            }
            let mut to_a = b.recent_inputs(1, 4);
            to_a.reverse();
            for bytes in to_a {
                assert!(a.receive(&vec![1], &bytes).is_ok());
            }
        }
    }
    assert_eq!(stalls, 0);
    assert!(a.current() == 200 && b.current() == 200);
    assert!(a.confirmed() >= 196);
    let f = std::cmp::min(a.confirmed(), b.confirmed());
    assert_eq!(a.snapshot_at(f), b.snapshot_at(f));
    assert!(a.snapshot_at(f).is_some());
}

#[test]
fn checksum_message_is_for_the_newest_final_state() {
    let mut s = run(10, 8, 0, &|f| f + 2);
    s.advance_frame(&local(10)).unwrap();
    assert_eq!(s.confirmed(), 9);
    let sum = s.checksum_at(10).unwrap();
    assert_eq!(decode(&s.checksum_message()), Some(Message::Checksum { frame: 10, checksum: sum }));
    let fresh = Session::new(two_players(8, 0), vec![7u8; 8], mix);
    assert_eq!(
        decode(&fresh.checksum_message()),
        Some(Message::Checksum { frame: 0, checksum: pong_rollback::checksum::checksum(&vec![7u8; 8]) })
    );
}

#[test]
fn snapshots_older_than_the_window_are_let_go() {
    let mut s = Session::new(two_players(3, 0), vec![0u8; 8], mix);
    let kept = |s: &Session<fn(&Vec<u8>, &Vec<BoxInput>) -> Vec<u8>>| -> Vec<i32> {
        (-2..20).filter(|f| s.snapshot_at(*f).is_some()).collect()
    };
    let step: fn(&Vec<u8>, &Vec<BoxInput>) -> Vec<u8> = mix;
    let mut t = Session::new(two_players(3, 0), vec![0u8; 8], step);
    assert_eq!(kept(&t), vec![0]);
    for f in 0..2 {
        t.advance_frame(&local(f)).unwrap();
    }
    assert_eq!(t.confirmed(), -1);
    assert_eq!(kept(&t), vec![0, 1, 2]);
    for f in 0..2 {
        assert_eq!(t.add_remote_input(1, f, remote(f as i64)), Arrival::Taken);
    }
    // confirmed is tick 1: nothing is older than 1 - 3
    assert_eq!(t.confirmed(), 1);
    assert_eq!(kept(&t), vec![0, 1, 2]);
    for f in 2..9 {
        assert_eq!(t.add_remote_input(1, f, remote(f as i64)), Arrival::Taken);
        t.advance_frame(&local(f as i64)).unwrap();
        let confirmed = t.confirmed();
        assert_eq!(confirmed, f);
        let floor = std::cmp::max(0, confirmed - 3);
        assert_eq!(kept(&t), (floor..=t.current()).collect::<Vec<i32>>());
    }
    // an arrival alone moves the floor as well
    assert_eq!(t.confirmed(), 8);
    assert_eq!(t.add_remote_input(1, 9, remote(9)), Arrival::Taken);
    assert_eq!(t.confirmed(), 8);
    assert_eq!(kept(&t), vec![5, 6, 7, 8, 9]);
    s.advance_frame(&local(0)).unwrap();
    assert_eq!(s.snapshot_at(0).unwrap(), &vec![0u8; 8]);
}

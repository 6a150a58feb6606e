use pong_rollback::config::PlayerKind;
use pong_rollback::lobby::{
    decimal_string, game_settings, handle_of, is_deep_player, lobby_status, lobby_text, room_url, Args, IsDeepPlayer,
    LobbyStatus, FPS, INPUT_DELAY, MAX_PREDICTION,
};

#[test]
fn default_args_are_for_two_players_in_the_next_room() {
    let args = Args::default();
    assert_eq!(args.matchbox, "wss://nlezrk177f.execute-api.us-east-1.amazonaws.com/prod");
    assert_eq!(args.room, None);
    assert_eq!(args.players, 2);
    assert_eq!(room_url(&args), "wss://nlezrk177f.execute-api.us-east-1.amazonaws.com/prod/?next=2");
}

#[test]
fn room_url_names_the_room_if_one_is_given() {
    let args = Args { matchbox: "ws://127.0.0.1:3536".to_owned(), room: Some("pong".to_owned()), players: 4 };
    assert_eq!(room_url(&args), "ws://127.0.0.1:3536/pong");
    let args = Args { matchbox: "ws://127.0.0.1:3536".to_owned(), room: None, players: 12 };
    assert_eq!(room_url(&args), "ws://127.0.0.1:3536/?next=12");
}

#[test]
fn numbers_are_written_in_decimal() {
    assert_eq!(decimal_string(0), "0");
    assert_eq!(decimal_string(7), "7");
    assert_eq!(decimal_string(10), "10");
    assert_eq!(decimal_string(1234567890), "1234567890");
    assert_eq!(decimal_string(usize::MAX), usize::MAX.to_string());
}

#[test]
fn lobby_waits_until_everybody_is_there() {
    assert_eq!(lobby_status(2, 0), LobbyStatus::Waiting { remaining: 1 });
    assert_eq!(lobby_status(2, 1), LobbyStatus::Ready);
    assert_eq!(lobby_status(4, 1), LobbyStatus::Waiting { remaining: 2 });
    assert_eq!(lobby_status(1, 0), LobbyStatus::Ready);
    assert_eq!(lobby_text(1), "Waiting for 1 more player(s)");
    assert_eq!(lobby_text(0), "Waiting for 0 more player(s)");
    assert_eq!(lobby_text(13), "Waiting for 13 more player(s)");
}

#[test]
fn handles_follow_the_peer_identifiers() {
    let ids = vec![30u128, 10, 20];
    assert_eq!(handle_of(&ids, 10), 0);
    assert_eq!(handle_of(&ids, 20), 1);
    assert_eq!(handle_of(&ids, 30), 2);
    // whatever the order in which a peer lists them
    let other = vec![20u128, 30, 10];
    for id in [10u128, 20, 30] {
        assert_eq!(handle_of(&ids, id), handle_of(&other, id));
    }
    assert_eq!(handle_of(&vec![], 5), 0);
    assert_eq!(handle_of(&vec![u128::MAX, 0], u128::MAX), 1);
}

#[test]
fn the_peer_with_the_lowest_identifier_is_deep() {
    assert_eq!(is_deep_player(5, &vec![9, 7]), IsDeepPlayer(true));
    assert_eq!(is_deep_player(8, &vec![9, 7]), IsDeepPlayer(false));
    assert_eq!(is_deep_player(7, &vec![7]), IsDeepPlayer(false));
    assert_eq!(is_deep_player(0, &vec![1]), IsDeepPlayer(true));
}

#[test]
fn game_settings_are_window_twelve_delay_two_sixty_ticks() {
    assert_eq!(MAX_PREDICTION, 12);
    assert_eq!(INPUT_DELAY, 2);
    assert_eq!(FPS, 60);
    let config = game_settings(2)
        .add_player(PlayerKind::Remote, 0)
        .unwrap()
        .add_player(PlayerKind::Local, 1)
        .unwrap()
        .build()
        .unwrap();
    assert_eq!(config.num_players(), 2);
    assert_eq!(config.max_prediction(), 12);
    assert_eq!(config.delay(), 2);
    assert_eq!(config.tick_rate(), 60);
}

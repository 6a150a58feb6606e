use pong_rollback::config::{
    PlayerKind, SessionBuilder, SyncError, DEFAULT_FPS, DEFAULT_INPUT_DELAY, DEFAULT_MAX_PREDICTION_FRAMES,
    DEFAULT_PLAYERS, MAX_FRAMES, MAX_PLAYERS,
};

#[test]
fn defaults_are_two_players_window_eight_no_delay_sixty_ticks() {
    assert_eq!(DEFAULT_PLAYERS, 2);
    assert_eq!(DEFAULT_MAX_PREDICTION_FRAMES, 8);
    assert_eq!(DEFAULT_INPUT_DELAY, 0);
    assert_eq!(DEFAULT_FPS, 60);
    let config = SessionBuilder::new()
        .add_player(PlayerKind::Local, 0)
        .unwrap()
        .add_player(PlayerKind::Remote, 1)
        .unwrap()
        .build()
        .unwrap();
    assert_eq!(config.num_players(), 2);
    assert_eq!(config.max_prediction(), 8);
    assert_eq!(config.delay(), 0);
    assert_eq!(config.tick_rate(), 60);
    assert_eq!(config.player_kind(0), Some(PlayerKind::Local));
    assert_eq!(config.player_kind(1), Some(PlayerKind::Remote));
    assert_eq!(config.player_kind(2), None);
}

#[test]
fn zero_prediction_window_is_refused() {
    assert_eq!(SessionBuilder::new().with_max_prediction_window(0).err(), Some(SyncError::InvalidConfiguration));
    assert!(SessionBuilder::new().with_max_prediction_window(1).is_ok());
    assert!(SessionBuilder::new().with_max_prediction_window(MAX_FRAMES).is_ok());
    assert_eq!(
        SessionBuilder::new().with_max_prediction_window(MAX_FRAMES + 1).err(),
        Some(SyncError::InvalidConfiguration)
    );
}

#[test]
fn limits_are_what_frames_and_messages_can_hold() {
    assert_eq!(MAX_FRAMES, i32::MAX as usize);
    assert_eq!(MAX_PLAYERS, u32::MAX as usize);
}

#[test]
fn zero_tick_rate_is_refused() {
    assert_eq!(SessionBuilder::new().with_fps(0).err(), Some(SyncError::InvalidConfiguration));
    assert!(SessionBuilder::new().with_fps(1).is_ok());
}

#[test]
fn bad_handles_are_refused() {
    // a handle that the session does not have
    assert_eq!(SessionBuilder::new().add_player(PlayerKind::Local, 2).err(), Some(SyncError::InvalidConfiguration));
    // a handle that is taken
    let b = SessionBuilder::new().add_player(PlayerKind::Local, 1).unwrap();
    assert_eq!(b.add_player(PlayerKind::Remote, 1).err(), Some(SyncError::InvalidConfiguration));
}

#[test]
fn incomplete_settings_are_refused() {
    // nobody registered
    assert_eq!(SessionBuilder::new().build().err(), Some(SyncError::InvalidConfiguration));
    // one of two registered
    let b = SessionBuilder::new().add_player(PlayerKind::Local, 0).unwrap();
    assert_eq!(b.build().err(), Some(SyncError::InvalidConfiguration));
    // no players at all
    assert_eq!(SessionBuilder::new().with_num_players(0).build().err(), Some(SyncError::InvalidConfiguration));
    // an input delay that is no count of ticks
    let b = SessionBuilder::new()
        .with_num_players(1)
        .with_input_delay(MAX_FRAMES)
        .add_player(PlayerKind::Local, 0)
        .unwrap();
    assert_eq!(b.build().err(), Some(SyncError::InvalidConfiguration));
}

#[test]
fn changing_the_player_count_forgets_registrations() {
    let b = SessionBuilder::new().add_player(PlayerKind::Local, 0).unwrap().with_num_players(3);
    let b = b.add_player(PlayerKind::Remote, 0).unwrap();
    let b = b.add_player(PlayerKind::Local, 2).unwrap().add_player(PlayerKind::Remote, 1).unwrap();
    let config = b.with_input_delay(4).with_fps(30).unwrap().build().unwrap();
    assert_eq!(config.num_players(), 3);
    assert_eq!(config.player_kind(0), Some(PlayerKind::Remote));
    assert_eq!(config.player_kind(2), Some(PlayerKind::Local));
    assert_eq!(config.delay(), 4);
    assert_eq!(config.tick_rate(), 30);
    let copy = config.clone();
    assert_eq!(copy.num_players(), 3);
    assert_eq!(copy.player_kind(1), Some(PlayerKind::Remote));
    assert_eq!(copy.max_prediction(), 8);
}

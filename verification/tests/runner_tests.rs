// Tests of the runner's tick processing, the lobby manager's lifecycle
// operations against the store, and outcome integration into ratings.

use matchforge::algorithm::EloAlgorithm;
use matchforge::constraints::MatchConstraints;
use matchforge::entry::EntryMetadata;
use matchforge::error::MatchForgeError;
use matchforge::lobby::{Lobby, LobbyMetadata, LobbyState};
use matchforge::matcher::MatchFormat;
use matchforge::persistence::{InMemoryAdapter, PersistenceAdapter};
use matchforge::queue_manager::{QueueConfig, QueueManager};
use matchforge::rating::{Outcome, Rating};
use matchforge::runner::{LobbyManager, MatchmakingRunner, QueueRunnerConfig, RunnerConfig};

fn runner_for(queue: &str, auto_dispatch: bool, max_per_tick: usize) -> MatchmakingRunner {
    MatchmakingRunner::new(RunnerConfig {
        tick_interval_ms: 1000,
        max_matches_per_tick: max_per_tick,
        auto_dispatch,
        queue_configs: vec![(
            queue.to_string(),
            QueueRunnerConfig { enabled: true, priority: 1, max_concurrent_matches: 100 },
        )],
    })
}

fn register_duel(qm: &mut QueueManager, name: &str) {
    qm.register_queue(QueueConfig {
        name: name.to_string(),
        format: MatchFormat::one_v_one(),
        constraints: MatchConstraints::permissive(),
    })
    .unwrap();
}

#[test]
fn runner_config_presets_differ_only_in_pace() {
    let base = RunnerConfig::default();
    assert_eq!(base.tick_interval_ms, 1000);
    assert_eq!(base.max_matches_per_tick, 1000);
    assert!(base.auto_dispatch);
    assert_eq!(base.queue_configs.len(), 2);
    assert_eq!(base.queue_configs[0].0, "ranked_1v1");
    assert_eq!(base.queue_configs[0].1.priority, 1);
    assert_eq!(base.queue_configs[1].0, "casual_5v5");
    assert_eq!(base.queue_configs[1].1.max_concurrent_matches, 50);
    assert_eq!(RunnerConfig::fast().tick_interval_ms, 500);
    assert_eq!(RunnerConfig::slow().tick_interval_ms, 5000);
}

#[test]
fn starting_twice_fails_and_stop_winds_down() {
    let mut runner = runner_for("q", false, 10);
    assert!(!runner.is_running());
    runner.start().unwrap();
    assert!(runner.is_running());
    let again = runner.start();
    assert!(matches!(again, Err(MatchForgeError::OperationFailed(_))));
    assert!(runner.is_running());
    runner.stop();
    assert!(!runner.is_running());
}

#[test]
fn test_matchmaking_runner() {
    // Four queued players and one tick without auto-dispatch: two
    // forming lobbies, and the queue drains to zero.
    let mut store = InMemoryAdapter::new();
    let mut qm = QueueManager::new();
    register_duel(&mut qm, "test_queue");
    for player in 1..=4u128 {
        qm.join_queue_solo(
            &mut store,
            "test_queue".to_string(),
            player,
            Rating::new(1_500_000 + (player as u64) * 10_000, 300_000, 60),
            EntryMetadata::empty(),
            player as i64,
        )
        .unwrap();
    }
    let runner = runner_for("test_queue", false, 10);
    runner.process_tick(&mut qm, &mut store, 200).unwrap();
    assert_eq!(
        qm.get_queue_size(&"test_queue".to_string()).unwrap(),
        0,
        "all players must have been matched and removed from the queue",
    );
}

#[test]
fn a_tick_respects_its_match_budget() {
    let mut store = InMemoryAdapter::new();
    let mut qm = QueueManager::new();
    register_duel(&mut qm, "q");
    for player in 1..=6u128 {
        qm.join_queue_solo(
            &mut store,
            "q".to_string(),
            player,
            Rating::default_beginner(),
            EntryMetadata::empty(),
            player as i64,
        )
        .unwrap();
    }
    let runner = runner_for("q", false, 1);
    runner.process_tick(&mut qm, &mut store, 100).unwrap();
    assert_eq!(
        qm.get_queue_size(&"q".to_string()).unwrap(),
        4,
        "one budgeted match takes exactly two players",
    );
}

#[test]
fn test_concurrent_operations() {
    // Twenty players admitted back to back: every join succeeds, all
    // twenty wait, and matching finds ten matches.
    let mut store = InMemoryAdapter::new();
    let mut qm = QueueManager::new();
    register_duel(&mut qm, "concurrent_test");
    for player in 1..=20u128 {
        let joined = qm.join_queue_solo(
            &mut store,
            "concurrent_test".to_string(),
            player,
            Rating::new(1_500_000, 300_000, 60),
            EntryMetadata::empty(),
            player as i64,
        );
        assert!(joined.is_ok(), "every queue join must succeed");
    }
    assert_eq!(
        qm.get_queue_size(&"concurrent_test".to_string()).unwrap(),
        20,
        "every player must be waiting",
    );
    let matches = qm.find_matches(&"concurrent_test".to_string(), 100).unwrap();
    assert_eq!(matches.len(), 10, "twenty players make ten duels");
}

#[test]
fn test_complete_matchmaking_flow() {
    // Ratings around 1500 within a 300-point window: four players give
    // two matches; reporting a win then moves the winner up and the
    // loser down.
    let mut store = InMemoryAdapter::new();
    let mut qm = QueueManager::new();
    qm.register_queue(QueueConfig {
        name: "ranked".to_string(),
        format: MatchFormat::one_v_one(),
        constraints: MatchConstraints {
            max_rating_delta: 300_000,
            same_region_required: false,
            role_requirements: Vec::new(),
            max_wait_time_seconds: 60,
            expansion_rate: 0,
        },
    })
    .unwrap();
    for (player, rating) in [(1u128, 1_500_000u64), (2, 1_550_000), (3, 1_450_000), (4, 1_500_000)]
    {
        store.save_player_rating(player, Rating::new(rating, 300_000, 60)).unwrap();
        qm.join_queue_solo(
            &mut store,
            "ranked".to_string(),
            player,
            Rating::new(rating, 300_000, 60),
            EntryMetadata::empty(),
            player as i64,
        )
        .unwrap();
    }
    let matches = qm.find_matches(&"ranked".to_string(), 50).unwrap();
    assert_eq!(matches.len(), 2, "four players within the window make two matches");

    // Materialize the first match into a stored lobby and report its
    // outcome: the first player won, the second lost.
    let lobby = Lobby::from_match_result(
        matches[0].clone(),
        vec![1, 1],
        LobbyMetadata::default(),
        50,
    );
    let lobby_id = lobby.id;
    let players: Vec<u128> = lobby.player_ids.clone();
    store.save_lobby(&lobby).unwrap();
    qm.remove_matched_entries(&mut store, &"ranked".to_string(), &matches[0].entries).unwrap();

    let lm = LobbyManager::new();
    let winner = players[0];
    let loser = players[1];
    let before_w = store.load_player_rating(winner).unwrap().unwrap();
    let before_l = store.load_player_rating(loser).unwrap().unwrap();
    lm.update_ratings(
        &mut store,
        lobby_id,
        &vec![(winner, Outcome::Win), (loser, Outcome::Loss)],
        &EloAlgorithm::default(),
    )
    .unwrap();
    let after_w = store.load_player_rating(winner).unwrap().unwrap();
    let after_l = store.load_player_rating(loser).unwrap().unwrap();
    assert!(after_w.rating > before_w.rating, "the winner must gain rating");
    assert!(after_l.rating < before_l.rating, "the loser must lose rating");
}

#[test]
fn closing_a_lobby_records_history_exactly_once() {
    // A forced close deletes the live lobby; it re-appears in the match
    // history, and closing again fails because the lobby is gone.
    let mut store = InMemoryAdapter::new();
    let mut qm = QueueManager::new();
    register_duel(&mut qm, "q");
    for player in 1..=2u128 {
        qm.join_queue_solo(
            &mut store,
            "q".to_string(),
            player,
            Rating::default_beginner(),
            EntryMetadata::empty(),
            player as i64,
        )
        .unwrap();
    }
    let matches = qm.find_matches(&"q".to_string(), 50).unwrap();
    let lobby = Lobby::from_match_result(
        matches[0].clone(),
        vec![1, 1],
        LobbyMetadata::default(),
        50,
    );
    let lobby_id = lobby.id;
    store.save_lobby(&lobby).unwrap();

    let lm = LobbyManager::new();
    lm.close_lobby(&mut store, lobby_id).unwrap();
    let reloaded = lm.get_lobby(&store, lobby_id).unwrap();
    assert!(reloaded.is_none(), "the live lobby must be deleted after closing");
    let again = lm.close_lobby(&mut store, lobby_id);
    assert!(
        matches!(again, Err(MatchForgeError::LobbyNotFound(_))),
        "a closed lobby cannot be closed twice",
    );
}

#[test]
fn lobby_manager_drives_readiness_and_dispatch_through_the_store() {
    let mut store = InMemoryAdapter::new();
    let mut qm = QueueManager::new();
    register_duel(&mut qm, "q");
    for player in 1..=2u128 {
        qm.join_queue_solo(
            &mut store,
            "q".to_string(),
            player,
            Rating::default_beginner(),
            EntryMetadata::empty(),
            player as i64,
        )
        .unwrap();
    }
    let matches = qm.find_matches(&"q".to_string(), 50).unwrap();
    let mut lobby = Lobby::from_match_result(
        matches[0].clone(),
        vec![1, 1],
        LobbyMetadata::default(),
        50,
    );
    lobby.transition_to(LobbyState::WaitingForReady).unwrap();
    let lobby_id = lobby.id;
    store.save_lobby(&lobby).unwrap();

    let lm = LobbyManager::new();
    lm.mark_player_ready(&mut store, lobby_id, 1).unwrap();
    lm.mark_player_ready(&mut store, lobby_id, 2).unwrap();
    let ready = lm.get_lobby(&store, lobby_id).unwrap().unwrap();
    assert_eq!(ready.state, LobbyState::Ready);

    lm.dispatch_lobby(&mut store, lobby_id, "srv-42".to_string()).unwrap();
    let dispatched = lm.get_lobby(&store, lobby_id).unwrap().unwrap();
    assert_eq!(dispatched.state, LobbyState::Dispatched);
    assert_eq!(dispatched.metadata.server_id.as_deref(), Some("srv-42"));
}

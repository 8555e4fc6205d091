// Tests of queue admission and cancellation, of the party lifecycle, and
// of the party rating aggregation strategies.

use matchforge::constraints::MatchConstraints;
use matchforge::entry::EntryMetadata;
use matchforge::error::MatchForgeError;
use matchforge::matcher::MatchFormat;
use matchforge::party_manager::PartyManager;
use matchforge::party_rating::{
    AverageStrategy, MaxStrategy, PartyMmrStrategy, WeightedWithPenaltyStrategy,
};
use matchforge::persistence::{InMemoryAdapter, PersistenceAdapter};
use matchforge::queue_manager::{QueueConfig, QueueManager};
use matchforge::rating::Rating;

fn duel_queue(name: &str) -> QueueConfig {
    QueueConfig {
        name: name.to_string(),
        format: MatchFormat::one_v_one(),
        constraints: MatchConstraints::permissive(),
    }
}

#[test]
fn basic_matchmaking_flow() {
    let mut store = InMemoryAdapter::new();
    let mut qm = QueueManager::new();
    qm.register_queue(duel_queue("test_queue")).unwrap();

    let rating = Rating::default_beginner();
    qm.join_queue_solo(&mut store, "test_queue".to_string(), 1, rating, EntryMetadata::empty(), 0)
        .unwrap();
    qm.join_queue_solo(&mut store, "test_queue".to_string(), 2, rating, EntryMetadata::empty(), 1)
        .unwrap();

    let matches = qm.find_matches(&"test_queue".to_string(), 10).unwrap();
    assert_eq!(matches.len(), 1);
}

#[test]
fn duplicate_queue_registration_is_refused() {
    let mut qm = QueueManager::new();
    qm.register_queue(duel_queue("q")).unwrap();
    let again = qm.register_queue(duel_queue("q"));
    assert!(matches!(again, Err(MatchForgeError::InvalidConfiguration(_))));
}

#[test]
fn join_then_leave_restores_the_queue_size() {
    let mut store = InMemoryAdapter::new();
    let mut qm = QueueManager::new();
    qm.register_queue(duel_queue("q")).unwrap();
    let name = "q".to_string();
    qm.join_queue_solo(&mut store, name.clone(), 1, Rating::default_beginner(), EntryMetadata::empty(), 0)
        .unwrap();
    let before = qm.get_queue_size(&name).unwrap();
    qm.join_queue_solo(&mut store, name.clone(), 2, Rating::default_beginner(), EntryMetadata::empty(), 1)
        .unwrap();
    assert_eq!(qm.get_queue_size(&name).unwrap(), before + 1);
    qm.leave_queue(&mut store, &name, 2).unwrap();
    assert_eq!(qm.get_queue_size(&name).unwrap(), before);
}

#[test]
fn test_error_handling() {
    let mut store = InMemoryAdapter::new();
    let mut qm = QueueManager::new();

    let missing = qm.join_queue_solo(
        &mut store,
        "non_existent".to_string(),
        1,
        Rating::default_beginner(),
        EntryMetadata::empty(),
        0,
    );
    assert!(
        matches!(missing, Err(MatchForgeError::QueueNotFound(_))),
        "joining a missing queue must fail",
    );

    qm.register_queue(duel_queue("test_queue")).unwrap();
    let absent = qm.leave_queue(&mut store, &"test_queue".to_string(), 42);
    assert!(
        matches!(absent, Err(MatchForgeError::NotInQueue(_))),
        "leaving without being queued must fail",
    );

    let mut pm: PartyManager<AverageStrategy> = PartyManager::new(AverageStrategy);
    let party = pm.create_party(&mut store, 100, 2, 0).unwrap();
    pm.add_member(&mut store, party.id, 101).unwrap();
    let dup = pm.add_member(&mut store, party.id, 101);
    assert!(dup.is_err(), "adding an existing member must fail");
    let full = pm.add_member(&mut store, party.id, 102);
    assert!(
        matches!(full, Err(MatchForgeError::PartyFull(2))),
        "adding to a full party must fail",
    );
}

#[test]
fn duplicate_admission_is_refused_per_queue() {
    let mut store = InMemoryAdapter::new();
    let mut qm = QueueManager::new();
    qm.register_queue(duel_queue("q")).unwrap();
    qm.join_queue_solo(&mut store, "q".to_string(), 7, Rating::default_beginner(), EntryMetadata::empty(), 0)
        .unwrap();
    let twice = qm.join_queue_solo(
        &mut store,
        "q".to_string(),
        7,
        Rating::default_beginner(),
        EntryMetadata::empty(),
        5,
    );
    assert!(matches!(twice, Err(MatchForgeError::AlreadyInQueue(7))));

    let party_with_member = qm.join_queue_party(
        &mut store,
        "q".to_string(),
        900,
        vec![8, 7],
        Rating::default_beginner(),
        EntryMetadata::empty(),
        6,
    );
    assert!(matches!(party_with_member, Err(MatchForgeError::AlreadyInQueue(7))));
}

#[test]
fn test_party_matchmaking() {
    let mut store = InMemoryAdapter::new();
    let mut qm = QueueManager::new();
    qm.register_queue(QueueConfig {
        name: "team_5v5".to_string(),
        format: MatchFormat::five_v_five(),
        constraints: MatchConstraints::permissive(),
    })
    .unwrap();

    // Two five-player parties fill one 5v5 match.
    qm.join_queue_party(
        &mut store,
        "team_5v5".to_string(),
        900,
        vec![1, 2, 3, 4, 5],
        Rating::default_beginner(),
        EntryMetadata::empty(),
        0,
    )
    .unwrap();
    qm.join_queue_party(
        &mut store,
        "team_5v5".to_string(),
        901,
        vec![6, 7, 8, 9, 10],
        Rating::default_beginner(),
        EntryMetadata::empty(),
        1,
    )
    .unwrap();
    let matches = qm.find_matches(&"team_5v5".to_string(), 10).unwrap();
    assert!(matches.len() >= 1, "the two parties must form at least one match");
    assert_eq!(matches[0].team_assignments, vec![0, 1]);
}

#[test]
fn party_lifecycle_creates_grows_and_disbands() {
    let mut store = InMemoryAdapter::new();
    let mut pm: PartyManager<AverageStrategy> = PartyManager::new(AverageStrategy);
    let party = pm.create_party(&mut store, 10, 5, 100).unwrap();
    assert_eq!(party.leader_id, 10);
    assert_eq!(party.member_ids, vec![10]);
    assert_eq!(party.max_size, 5);

    pm.add_member(&mut store, party.id, 11).unwrap();
    pm.add_member(&mut store, party.id, 12).unwrap();
    assert!(pm.get_player_party(11).is_some());

    pm.remove_member(&mut store, party.id, 11).unwrap();
    assert!(pm.get_player_party(11).is_none());

    // Removing the leader disbands the party entirely.
    pm.remove_member(&mut store, party.id, 10).unwrap();
    assert!(pm.get_player_party(12).is_none());
    let gone = pm.remove_member(&mut store, party.id, 12);
    assert!(matches!(gone, Err(MatchForgeError::PartyNotFound(_))));
}

#[test]
fn average_aggregation_matches_the_worked_example() {
    // A 1500 leader and a 1700 member average to 1600 with the shared
    // deviation and the default volatility.
    let ratings = vec![
        (1u128, Rating::new(1_500_000, 300_000, 60)),
        (2u128, Rating::new(1_700_000, 300_000, 60)),
    ];
    let derived = AverageStrategy.calculate_party_rating(&ratings);
    assert_eq!(derived.rating, 1_600_000);
    assert_eq!(derived.deviation, 300_000);
    assert_eq!(derived.volatility, 60);
}

#[test]
fn max_aggregation_takes_the_strongest_member() {
    let ratings = vec![
        (1u128, Rating::new(1_500_000, 300_000, 60)),
        (2u128, Rating::new(1_700_000, 250_000, 60)),
        (3u128, Rating::new(1_400_000, 100_000, 60)),
    ];
    let derived = MaxStrategy.calculate_party_rating(&ratings);
    assert_eq!(derived.rating, 1_700_000);
    assert_eq!(derived.deviation, 250_000);
}

#[test]
fn gap_penalty_inflates_a_wide_spread() {
    // Mean 1500 plus a tenth of the 200-point spread: 1520, with the
    // fixed moderate deviation.
    let strategy = WeightedWithPenaltyStrategy::new(100);
    let ratings = vec![
        (1u128, Rating::new(1_400_000, 300_000, 60)),
        (2u128, Rating::new(1_600_000, 300_000, 60)),
    ];
    let derived = strategy.calculate_party_rating(&ratings);
    assert_eq!(derived.rating, 1_520_000);
    assert_eq!(derived.deviation, 200_000);
}

#[test]
fn empty_member_lists_aggregate_to_the_beginner_rating() {
    let none: Vec<(u128, Rating)> = Vec::new();
    assert_eq!(AverageStrategy.calculate_party_rating(&none), Rating::default_beginner());
    assert_eq!(MaxStrategy.calculate_party_rating(&none), Rating::default_beginner());
}

#[test]
fn derived_party_rating_reads_stored_member_ratings() {
    let mut store = InMemoryAdapter::new();
    let mut pm: PartyManager<AverageStrategy> = PartyManager::new(AverageStrategy);
    let party = pm.create_party(&mut store, 21, 4, 0).unwrap();
    pm.add_member(&mut store, party.id, 22).unwrap();
    store.save_player_rating(21, Rating::new(1_500_000, 300_000, 60)).unwrap();
    store.save_player_rating(22, Rating::new(1_700_000, 300_000, 60)).unwrap();
    let derived = pm.calculate_party_rating(&store, party.id).unwrap();
    assert_eq!(derived.rating, 1_600_000);
    assert_eq!(derived.deviation, 300_000);
}

#[test]
fn an_empty_party_entry_is_rejected() {
    let mut store = InMemoryAdapter::new();
    let mut qm = QueueManager::new();
    qm.register_queue(duel_queue("q")).unwrap();
    let empty = qm.join_queue_party(
        &mut store,
        "q".to_string(),
        900,
        Vec::new(),
        Rating::default_beginner(),
        EntryMetadata::empty(),
        0,
    );
    assert!(matches!(empty, Err(MatchForgeError::ConstraintsNotSatisfied(_))));
}

#[test]
fn a_party_needs_room_for_its_leader() {
    let mut store = InMemoryAdapter::new();
    let mut pm: PartyManager<AverageStrategy> = PartyManager::new(AverageStrategy);
    let zero = pm.create_party(&mut store, 1, 0, 0);
    assert!(matches!(zero, Err(MatchForgeError::InvalidPartyOperation(_))));
}

#[test]
fn a_party_no_team_can_hold_is_rejected_at_admission() {
    // The matcher never splits an entry across teams, so a two-player
    // party can never play a duel: admission refuses it outright.
    let mut store = InMemoryAdapter::new();
    let mut qm = QueueManager::new();
    qm.register_queue(duel_queue("q")).unwrap();
    let refused = qm.join_queue_party(
        &mut store,
        "q".to_string(),
        900,
        vec![21, 22],
        Rating::default_beginner(),
        EntryMetadata::empty(),
        0,
    );
    assert!(matches!(refused, Err(MatchForgeError::ConstraintsNotSatisfied(_))));
    assert_eq!(qm.get_queue_size(&"q".to_string()).unwrap(), 0);
}

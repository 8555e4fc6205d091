// Tests of the advanced strategies (swiss pairing, tournament brackets,
// the adaptive pairer, the fair balancer), of the event builder, and of
// the windowed rate counter.

use matchforge::entry::{EntryMetadata, QueueEntry};
use matchforge::events::{EventBuilder, EventType};
use matchforge::matcher::MatchFormat;
use matchforge::constraints::MatchConstraints;
use matchforge::rating::Rating;
use matchforge::security::RateCounter;
use matchforge::strategies::{
    AdaptiveMatcher, BalanceStrategy, FairTeamBalancer, SeedingStrategy, SwissMatcher,
    TournamentMatcher, TournamentType,
};

fn solo(player: u128, rating_milli: u64, joined_ms: i64) -> QueueEntry {
    QueueEntry::new_solo(
        "q".to_string(),
        player,
        Rating::new(rating_milli, 300_000, 60),
        EntryMetadata::empty(),
        joined_ms,
    )
}

#[test]
fn swiss_pairs_by_score_bucket() {
    let swiss = SwissMatcher::new(100_000, false);
    let entries = vec![solo(1, 1_500_000, 0), solo(2, 1_520_000, 1), solo(3, 1_480_000, 2)];
    let scores = vec![(1u128, 2_000u64), (2, 2_050), (3, 9_000)];
    let pairings = swiss.find_pairings(&entries, &scores, &Vec::new());
    assert_eq!(pairings.len(), 1, "only the two close scores pair up");
    let players: Vec<u128> = pairings[0].entries.iter().flat_map(|e| e.player_ids.clone()).collect();
    assert!(players.contains(&1) && players.contains(&2));
    assert_eq!(pairings[0].team_assignments, vec![0, 1]);
}

#[test]
fn swiss_can_avoid_rematches() {
    let entries = vec![solo(1, 1_500_000, 0), solo(2, 1_500_000, 1)];
    let scores = vec![(1u128, 1_000u64), (2, 1_000)];
    let history = vec![(1u128, vec![2u128]), (2u128, vec![1u128])];

    let relaxed = SwissMatcher::new(100_000, false);
    assert_eq!(relaxed.find_pairings(&entries, &scores, &history).len(), 1);

    let strict = SwissMatcher::new(100_000, true);
    assert_eq!(
        strict.find_pairings(&entries, &scores, &history).len(),
        0,
        "the former opponents are kept apart",
    );
}

#[test]
fn tournament_bracket_groups_seeds_into_full_matches() {
    let matcher = TournamentMatcher::new(TournamentType::SingleElimination, SeedingStrategy::ByRating);
    let entries = vec![
        solo(1, 1_400_000, 0),
        solo(2, 1_600_000, 1),
        solo(3, 1_500_000, 2),
        solo(4, 1_550_000, 3),
    ];
    let bracket = matcher.generate_bracket(entries, MatchFormat::one_v_one());
    assert_eq!(bracket.current_round, 1);
    assert_eq!(bracket.matches.len(), 2);
    for m in &bracket.matches {
        assert_eq!(m.entries.len(), 2);
        assert!(m.winner.is_none());
    }
    // Strongest first: the top seed opens the bracket.
    assert_eq!(bracket.matches[0].entries[0].player_ids, vec![2]);
}

#[test]
fn tournament_gives_a_bye_when_one_entry_remains() {
    let matcher = TournamentMatcher::new(TournamentType::RoundRobin, SeedingStrategy::ByRating);
    let entries = vec![solo(1, 1_500_000, 0)];
    let bracket = matcher.generate_bracket(entries, MatchFormat::one_v_one());
    assert_eq!(bracket.matches.len(), 1);
    assert_eq!(bracket.matches[0].entries.len(), 1);
    assert_eq!(bracket.matches[0].winner, Some(1), "the lone seed gets the bye");
}

#[test]
fn tournament_match_records_its_winner() {
    let matcher = TournamentMatcher::new(TournamentType::SingleElimination, SeedingStrategy::ByRating);
    let entries = vec![solo(1, 1_500_000, 0), solo(2, 1_400_000, 1)];
    let mut bracket = matcher.generate_bracket(entries, MatchFormat::one_v_one());
    assert!(!bracket.matches[0].is_complete());
    let mut first = bracket.matches.remove(0);
    first.set_winner(2);
    assert!(first.is_complete());
    assert_eq!(first.all_players(), vec![1, 2]);
}

#[test]
fn adaptive_matcher_widens_with_wait() {
    // A 100-point gap against a 50-point base: hopeless while fresh,
    // paired once the wait has scaled the window up.
    let base = MatchConstraints {
        max_rating_delta: 50_000,
        same_region_required: false,
        role_requirements: Vec::new(),
        max_wait_time_seconds: 60,
        expansion_rate: 0,
    };
    let adaptive = AdaptiveMatcher::new(base, 10_000, 20_000);
    let near = vec![solo(1, 1_500_000, 0), solo(2, 1_600_000, 0)];
    let fresh = adaptive.find_matches(&near, 0);
    assert_eq!(fresh.len(), 0, "a fresh pair 100 points apart stays unmatched");
    let stale = adaptive.find_matches(&near, 10_000);
    assert_eq!(stale.len(), 1, "ten seconds of waiting widen the window enough");
}

#[test]
fn balancer_builds_one_team_per_requested_size() {
    let entries = vec![
        solo(1, 1_700_000, 0),
        solo(2, 1_600_000, 1),
        solo(3, 1_500_000, 2),
        solo(4, 1_400_000, 3),
    ];
    for strategy in [BalanceStrategy::ByRating, BalanceStrategy::ByPartySize, BalanceStrategy::Hybrid]
    {
        let balancer = FairTeamBalancer::new(strategy);
        let teams = balancer.create_balanced_teams(&entries, &vec![2, 2]);
        assert_eq!(teams.len(), 2);
        let placed: usize = teams.iter().map(|t| t.len()).sum();
        assert_eq!(placed, 4, "every entry lands on a team");
    }
}

#[test]
fn snake_draft_splits_the_top_two_seeds() {
    let entries = vec![
        solo(1, 1_700_000, 0),
        solo(2, 1_600_000, 1),
        solo(3, 1_500_000, 2),
        solo(4, 1_400_000, 3),
    ];
    let balancer = FairTeamBalancer::new(BalanceStrategy::ByRating);
    let teams = balancer.create_balanced_teams(&entries, &vec![2, 2]);
    let team_of = |player: u128| -> usize {
        teams.iter().position(|t| t.iter().any(|e| e.player_ids.contains(&player))).unwrap()
    };
    assert_ne!(team_of(1), team_of(2), "the snake puts the top two seeds apart");
}

#[test]
fn event_builder_attaches_metadata_in_order() {
    let event = EventBuilder::new(EventType::MatchFound)
        .metadata("queue".to_string(), "ranked".to_string())
        .metadata("players".to_string(), "2".to_string())
        .build(12_345);
    assert_eq!(event.event_type, EventType::MatchFound);
    assert_eq!(event.timestamp_ms, 12_345);
    assert_eq!(event.metadata.len(), 2);
    assert_eq!(event.metadata[0].0, "queue");
    assert_eq!(event.metadata[1].1, "2");
}

#[test]
fn test_basic_rate_limiting() {
    let mut counter = RateCounter::new(60_000, 0);
    assert_eq!(counter.increment(10), 1);
    assert_eq!(counter.increment(20), 2);
    assert_eq!(counter.increment(30), 3);
    assert_eq!(counter.count, 3);
}

#[test]
fn test_window_reset() {
    // A window of 100 milliseconds: a request at 150 lands in a fresh
    // window and counts from one again.
    let mut counter = RateCounter::new(100, 0);
    assert_eq!(counter.increment(10), 1);
    assert_eq!(counter.increment(50), 2);
    assert_eq!(counter.increment(150), 1, "the lapsed window restarts the count");
    assert_eq!(counter.window_start_ms, 150);
    assert!(!counter.is_expired(200));
    assert!(counter.is_expired(400));
}

#[test]
fn random_seeding_keeps_every_entry() {
    // The shuffled seeding is a permutation: all four players stand in
    // the bracket, whatever order the shuffle picked.
    let matcher = TournamentMatcher::new(TournamentType::SingleElimination, SeedingStrategy::Random);
    let entries = vec![
        solo(1, 1_400_000, 0),
        solo(2, 1_600_000, 1),
        solo(3, 1_500_000, 2),
        solo(4, 1_550_000, 3),
    ];
    let bracket = matcher.generate_bracket(entries, MatchFormat::one_v_one());
    let mut placed: Vec<u128> = bracket
        .matches
        .iter()
        .flat_map(|m| m.entries.iter().flat_map(|e| e.player_ids.clone()))
        .collect();
    placed.sort();
    assert_eq!(placed, vec![1, 2, 3, 4]);
}

#[test]
fn manual_seeding_follows_the_supplied_order() {
    let matcher = TournamentMatcher::new(
        TournamentType::SingleElimination,
        SeedingStrategy::Manual(vec![3, 1, 4, 2]),
    );
    let entries = vec![
        solo(1, 1_400_000, 0),
        solo(2, 1_600_000, 1),
        solo(3, 1_500_000, 2),
        solo(4, 1_550_000, 3),
    ];
    let bracket = matcher.generate_bracket(entries, MatchFormat::one_v_one());
    assert_eq!(bracket.matches.len(), 2);
    assert_eq!(bracket.matches[0].entries[0].player_ids, vec![3]);
    assert_eq!(bracket.matches[0].entries[1].player_ids, vec![1]);
}

#[test]
fn next_round_groups_the_recorded_winners_in_order() {
    let matcher = TournamentMatcher::new(TournamentType::SingleElimination, SeedingStrategy::ByRating);
    let entries = vec![
        solo(1, 1_700_000, 0),
        solo(2, 1_600_000, 1),
        solo(3, 1_500_000, 2),
        solo(4, 1_400_000, 3),
    ];
    let mut bracket = matcher.generate_bracket(entries, MatchFormat::one_v_one());
    assert_eq!(bracket.matches.len(), 2);
    // Record a winner per first-round match and complete the round.
    while let Some(mut m) = bracket.matches.pop() {
        let w = m.entries[1].player_ids[0];
        m.set_winner(w);
        bracket.completed_matches.insert(0, m);
    }
    let next = matcher.generate_next_round(&bracket, MatchFormat::one_v_one());
    assert_eq!(next.len(), 1, "two winners make one second-round match");
    assert_eq!(next[0].round, 2);
    assert_eq!(next[0].entries.len(), 2);
    let w0 = bracket.completed_matches[0].winner.unwrap();
    let w1 = bracket.completed_matches[1].winner.unwrap();
    assert_eq!(next[0].entries[0].player_ids, vec![w0], "winners advance in bracket order");
    assert_eq!(next[0].entries[1].player_ids, vec![w1]);
}

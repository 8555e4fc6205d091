// Tests of match formats, pairwise constraints, and the greedy matcher's
// boundary behavior, including the wait-time expansion of the rating
// window.

use matchforge::constraints::MatchConstraints;
use matchforge::entry::{EntryMetadata, QueueEntry};
use matchforge::matcher::{GreedyMatcher, MatchFormat};
use matchforge::rating::Rating;

fn solo(queue: &str, player: u128, rating_milli: u64, joined_ms: i64) -> QueueEntry {
    QueueEntry::new_solo(
        queue.to_string(),
        player,
        Rating::new(rating_milli, 350_000, 60),
        EntryMetadata::empty(),
        joined_ms,
    )
}

#[test]
fn formats_carry_their_team_sizes() {
    let duel = MatchFormat::one_v_one();
    assert_eq!(duel.name, "1v1");
    assert_eq!(duel.team_sizes, vec![1, 1]);
    assert_eq!(duel.players_per_match(), 2);
    assert_eq!(duel.team_count(), 2);
    assert_eq!(duel.team_size(0), Some(1));
    assert_eq!(duel.team_size(2), None);

    let duo = MatchFormat::two_v_two();
    assert_eq!(duo.name, "2v2");
    assert_eq!(duo.players_per_match(), 4);

    let squad = MatchFormat::five_v_five();
    assert_eq!(squad.name, "5v5");
    assert_eq!(squad.players_per_match(), 10);

    let seven = MatchFormat::team_v_team(7);
    assert_eq!(seven.name, "7v7");
    assert_eq!(seven.team_sizes, vec![7, 7]);
    assert_eq!(seven.players_per_match(), 14);

    let ffa = MatchFormat::free_for_all(4);
    assert_eq!(ffa.name, "4-player-ffa");
    assert_eq!(ffa.team_sizes, vec![1, 1, 1, 1]);
    assert_eq!(ffa.players_per_match(), 4);
}

#[test]
fn entry_accessors_report_wait_and_count() {
    let e = solo("q", 7, 1_500_000, 1_000);
    assert_eq!(e.player_count(), 1);
    assert!(e.is_solo());
    assert_eq!(e.wait_time(4_000), 3_000);
    assert_eq!(e.wait_time(500), 0);
}

#[test]
fn can_match_checks_the_rating_window() {
    let c = MatchConstraints {
        max_rating_delta: 200_000,
        same_region_required: false,
        role_requirements: Vec::new(),
        max_wait_time_seconds: 60,
        expansion_rate: 0,
    };
    let a = solo("q", 1, 1_500_000, 0);
    let b = solo("q", 2, 1_650_000, 0);
    let far = solo("q", 3, 1_800_000, 0);
    assert!(c.can_match(&a, &b, 0));
    assert!(!c.can_match(&a, &far, 0));
}

#[test]
fn can_match_gates_on_region_when_required() {
    let c = MatchConstraints {
        max_rating_delta: 500_000,
        same_region_required: true,
        role_requirements: Vec::new(),
        max_wait_time_seconds: 60,
        expansion_rate: 0,
    };
    let mut a = solo("q", 1, 1_500_000, 0);
    let mut b = solo("q", 2, 1_500_000, 0);
    assert!(c.can_match(&a, &b, 0), "two untagged entries agree");
    a.metadata.region = Some("eu".to_string());
    assert!(!c.can_match(&a, &b, 0), "tagged against untagged fails");
    b.metadata.region = Some("na".to_string());
    assert!(!c.can_match(&a, &b, 0), "different tags fail");
    b.metadata.region = Some("eu".to_string());
    assert!(c.can_match(&a, &b, 0), "equal tags agree");
}

#[test]
fn effective_delta_widens_with_wait() {
    let c = MatchConstraints {
        max_rating_delta: 50_000,
        same_region_required: false,
        role_requirements: Vec::new(),
        max_wait_time_seconds: 60,
        expansion_rate: 10_000,
    };
    let e = solo("q", 1, 1_500_000, 0);
    assert_eq!(c.effective_rating_delta(&e, 0), 50_000);
    assert_eq!(c.effective_rating_delta(&e, 1_000), 60_000);
    assert_eq!(c.effective_rating_delta(&e, 6_000), 110_000);
}

#[test]
fn empty_snapshot_yields_no_match() {
    let matcher = GreedyMatcher::new(MatchFormat::one_v_one(), MatchConstraints::permissive());
    let entries: Vec<QueueEntry> = Vec::new();
    assert!(matcher.find_match(&entries, 0).is_none());
}

#[test]
fn single_entry_cannot_fill_a_two_player_format() {
    let matcher = GreedyMatcher::new(MatchFormat::one_v_one(), MatchConstraints::permissive());
    let entries = vec![solo("q", 1, 1_500_000, 0)];
    assert!(matcher.find_match(&entries, 0).is_none());
}

#[test]
fn two_compatible_entries_fill_a_duel() {
    let matcher = GreedyMatcher::new(MatchFormat::one_v_one(), MatchConstraints::permissive());
    let entries = vec![solo("q", 1, 1_500_000, 0), solo("q", 2, 1_600_000, 1_000)];
    let m = matcher.find_match(&entries, 2_000).expect("two compatible entries must match");
    assert_eq!(m.entries.len(), 2);
    assert_eq!(m.team_assignments, vec![0, 1]);
    let players: Vec<u128> = m.entries.iter().flat_map(|e| e.player_ids.clone()).collect();
    assert!(players.contains(&1) && players.contains(&2));
}

#[test]
fn expansion_lets_a_stale_pair_match_later() {
    // A 100-point difference against a 50-point window that widens by 10
    // points a second: refused after one second, accepted after six.
    let constraints = MatchConstraints {
        max_rating_delta: 50_000,
        same_region_required: false,
        role_requirements: Vec::new(),
        max_wait_time_seconds: 60,
        expansion_rate: 10_000,
    };
    let matcher = GreedyMatcher::new(MatchFormat::one_v_one(), constraints);
    let entries = vec![solo("q", 1, 1_500_000, 0), solo("q", 2, 1_600_000, 0)];
    assert!(matcher.find_match(&entries, 1_000).is_none(), "60 points of window, 100 apart");
    assert!(matcher.find_match(&entries, 6_000).is_some(), "110 points of window, 100 apart");
}

#[test]
fn matcher_prefers_the_longest_waiting_entry() {
    let matcher = GreedyMatcher::new(MatchFormat::one_v_one(), MatchConstraints::permissive());
    let entries = vec![
        solo("q", 3, 1_500_000, 9_000),
        solo("q", 1, 1_500_000, 1_000),
        solo("q", 2, 1_500_000, 5_000),
    ];
    let m = matcher.find_match(&entries, 10_000).expect("plenty of compatible entries");
    assert_eq!(m.entries[0].player_ids, vec![1], "the oldest admission goes first");
}

#[test]
fn parties_are_never_split_across_teams() {
    // A three-player party cannot stand in a 2v2; two duos can.
    let matcher = GreedyMatcher::new(MatchFormat::two_v_two(), MatchConstraints::permissive());
    let trio = QueueEntry::new_party(
        "q".to_string(),
        900,
        vec![1, 2, 3],
        Rating::default_beginner(),
        EntryMetadata::empty(),
        0,
    );
    let solo4 = solo("q", 4, 1_500_000, 1_000);
    let entries = vec![trio.clone(), solo4.clone()];
    assert!(
        matcher.find_match(&entries, 2_000).is_none(),
        "a trio would straddle the two duo teams",
    );

    let duo_a = QueueEntry::new_party(
        "q".to_string(),
        901,
        vec![1, 2],
        Rating::default_beginner(),
        EntryMetadata::empty(),
        0,
    );
    let duo_b = QueueEntry::new_party(
        "q".to_string(),
        902,
        vec![3, 4],
        Rating::default_beginner(),
        EntryMetadata::empty(),
        500,
    );
    let m = matcher.find_match(&vec![duo_a, duo_b], 2_000).expect("two duos fill a 2v2");
    assert_eq!(m.team_assignments, vec![0, 1]);
}

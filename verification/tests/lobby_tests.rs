// Tests of the lobby state machine, readiness tracking, team assignment
// and the close path that records match history.

use matchforge::error::MatchForgeError;
use matchforge::lobby::{
    Lobby, LobbyMetadata, LobbyState, SequentialAssignment, Team, TeamAssignmentStrategy,
};
use matchforge::matcher::{MatchFormat, MatchResult};
use matchforge::entry::{EntryMetadata, QueueEntry};
use matchforge::rating::Rating;

fn four_player_match() -> MatchResult {
    let mk = |party: u128, players: Vec<u128>, at: i64| {
        QueueEntry::new_party(
            "q".to_string(),
            party,
            players,
            Rating::default_beginner(),
            EntryMetadata::empty(),
            at,
        )
    };
    MatchResult {
        match_id: 777,
        entries: vec![mk(900, vec![1, 2], 0), mk(901, vec![3, 4], 1)],
        team_assignments: vec![0, 1],
    }
}

#[test]
fn state_machine_allows_only_the_forward_chain_and_closing() {
    assert!(LobbyState::Forming.can_transition_to(LobbyState::WaitingForReady));
    assert!(LobbyState::WaitingForReady.can_transition_to(LobbyState::Ready));
    assert!(LobbyState::Ready.can_transition_to(LobbyState::Dispatched));
    assert!(LobbyState::Dispatched.can_transition_to(LobbyState::Closed));
    assert!(LobbyState::Forming.can_transition_to(LobbyState::Closed), "any state may close");
    assert!(LobbyState::Ready.can_transition_to(LobbyState::Closed));
    assert!(!LobbyState::Forming.can_transition_to(LobbyState::Ready));
    assert!(!LobbyState::Forming.can_transition_to(LobbyState::Dispatched));
    assert!(!LobbyState::WaitingForReady.can_transition_to(LobbyState::Dispatched));
    assert!(!LobbyState::Ready.can_transition_to(LobbyState::WaitingForReady));
}

#[test]
fn sequential_assignment_fills_teams_in_order() {
    let teams = SequentialAssignment.assign_teams(vec![1, 2, 3, 4], &vec![2, 2]);
    assert_eq!(teams.len(), 2);
    assert_eq!(teams[0].team_id, 0);
    assert_eq!(teams[0].player_ids, vec![1, 2]);
    assert_eq!(teams[1].team_id, 1);
    assert_eq!(teams[1].player_ids, vec![3, 4]);
}

#[test]
fn team_accessors_count_players() {
    let mut team = Team::new(3);
    assert_eq!(team.size(), 0);
    team.add_player(9);
    team.add_player(11);
    assert_eq!(team.size(), 2);
    assert_eq!(team.team_id, 3);
}

#[test]
fn test_lifecycle_management() {
    // A four-player 2v2 lobby walks Forming, WaitingForReady, Ready (by
    // the fourth ready check), Dispatched with a server id, then closes.
    let mut lobby = Lobby::from_match_result(
        four_player_match(),
        vec![2, 2],
        LobbyMetadata::default(),
        50,
    );
    assert_eq!(lobby.state, LobbyState::Forming);
    assert_eq!(lobby.player_ids, vec![1, 2, 3, 4]);
    assert_eq!(lobby.teams[0].player_ids, vec![1, 2]);
    assert_eq!(lobby.teams[1].player_ids, vec![3, 4]);

    lobby.transition_to(LobbyState::WaitingForReady).unwrap();
    lobby.mark_player_ready(1).unwrap();
    lobby.mark_player_ready(2).unwrap();
    lobby.mark_player_ready(3).unwrap();
    assert_eq!(lobby.state, LobbyState::WaitingForReady);
    assert!(!lobby.all_players_ready());
    lobby.mark_player_ready(4).unwrap();
    assert!(lobby.all_players_ready());
    assert_eq!(lobby.state, LobbyState::Ready, "the last check moves the lobby by itself");

    lobby.metadata.server_id = Some("server-123".to_string());
    lobby.transition_to(LobbyState::Dispatched).unwrap();
    lobby.transition_to(LobbyState::Closed).unwrap();
    assert_eq!(lobby.state, LobbyState::Closed);
}

#[test]
fn marking_ready_twice_changes_nothing() {
    let mut lobby = Lobby::from_match_result(
        four_player_match(),
        vec![2, 2],
        LobbyMetadata::default(),
        50,
    );
    lobby.transition_to(LobbyState::WaitingForReady).unwrap();
    lobby.mark_player_ready(1).unwrap();
    let ready_after_once = lobby.ready_players.clone();
    let state_after_once = lobby.state;
    lobby.mark_player_ready(1).unwrap();
    assert_eq!(lobby.ready_players, ready_after_once);
    assert_eq!(lobby.state, state_after_once);
}

#[test]
fn only_participants_can_report_ready() {
    let mut lobby = Lobby::from_match_result(
        four_player_match(),
        vec![2, 2],
        LobbyMetadata::default(),
        50,
    );
    let stranger = lobby.mark_player_ready(99);
    assert!(matches!(stranger, Err(MatchForgeError::PlayerNotFound(99))));
}

#[test]
fn refused_transitions_leave_the_lobby_alone() {
    let mut lobby = Lobby::from_match_result(
        four_player_match(),
        vec![2, 2],
        LobbyMetadata::default(),
        50,
    );
    let skip = lobby.transition_to(LobbyState::Dispatched);
    assert!(matches!(skip, Err(MatchForgeError::OperationFailed(_))));
    assert_eq!(lobby.state, LobbyState::Forming);
}

#[test]
fn player_teams_are_looked_up_by_membership() {
    let lobby = Lobby::from_match_result(
        four_player_match(),
        vec![2, 2],
        LobbyMetadata::default(),
        50,
    );
    assert_eq!(lobby.get_player_team(1), Some(0));
    assert_eq!(lobby.get_player_team(4), Some(1));
    assert_eq!(lobby.get_player_team(99), None);
}

//! Lobbies: a match materialized into a mutable record with a state
//! machine driving it from formation through readiness to dispatch, and
//! finally to close. The flat participant list of a lobby always carries
//! exactly the players of its teams, and no player sits in two teams.

use vstd::prelude::*;

verus! {

use vstd::seq_lib::lemma_multiset_commutative;
use crate::entry::{clone_ids, contains_id, EntryView};
use crate::error::MatchForgeError;
use crate::idgen::fresh_id;
use crate::matcher::{MatchResult, MatchView, sum_sizes, sum_players};

/// Lobby lifecycle states.
#[derive(Debug, Clone, Copy, PartialEq, Eq, Structural)]
pub enum LobbyState {
    /// Players are being added to the lobby.
    Forming,
    /// All players present, waiting for ready confirmations.
    WaitingForReady,
    /// All players ready; the lobby can be dispatched to a game server.
    Ready,
    /// The match has been dispatched to a game server.
    Dispatched,
    /// The lobby is closed: the match completed or was cancelled.
    Closed,
}

/// The transitions the lobby state machine allows: the forward chain
/// Forming, WaitingForReady, Ready, Dispatched, Closed, and a forced
/// close from any state.
pub open spec fn transition_allowed(from: LobbyState, to: LobbyState) -> bool {
    ||| (from == LobbyState::Forming && to == LobbyState::WaitingForReady)
    ||| (from == LobbyState::WaitingForReady && to == LobbyState::Ready)
    ||| (from == LobbyState::Ready && to == LobbyState::Dispatched)
    ||| to == LobbyState::Closed
}

impl LobbyState {
    /// Whether the state machine allows moving from this state to
    /// `new_state`.
    pub fn can_transition_to(&self, new_state: LobbyState) -> (b: bool)
        ensures
            b == transition_allowed(*self, new_state),
    {
        match (self, new_state) {
            (LobbyState::Forming, LobbyState::WaitingForReady) => true,
            (LobbyState::WaitingForReady, LobbyState::Ready) => true,
            (LobbyState::Ready, LobbyState::Dispatched) => true,
            (_, LobbyState::Closed) => true,
            _ => false,
        }
    }
}

/// The mathematical content of a `Team`.
#[verifier::ext_equal]
pub ghost struct TeamView {
    pub team_id: usize,
    pub player_ids: Seq<u128>,
}

/// One team of a lobby: its index and the players assigned to it.
#[derive(Debug)]
pub struct Team {
    /// The team's index within the lobby.
    pub team_id: usize,
    /// The players on the team, in assignment order.
    pub player_ids: Vec<u128>,
}

impl View for Team {
    type V = TeamView;

    open spec fn view(&self) -> TeamView {
        TeamView { team_id: self.team_id, player_ids: self.player_ids@ }
    }
}

impl DeepView for Team {
    type V = TeamView;

    open spec fn deep_view(&self) -> TeamView {
        self@
    }
}

impl Clone for Team {
    /// A clone carries exactly the same team.
    fn clone(&self) -> (t: Team)
        ensures
            t@ == self@,
    {
        Team { team_id: self.team_id, player_ids: clone_ids(&self.player_ids) }
    }
}

impl Team {
    /// An empty team with the given index.
    pub fn new(team_id: usize) -> (t: Team)
        ensures
            t@.team_id == team_id,
            t@.player_ids =~= Seq::<u128>::empty(),
    {
        Team { team_id, player_ids: Vec::new() }
    }

    /// Adds a player to the team.
    pub fn add_player(&mut self, player_id: u128)
        ensures
            final(self)@.team_id == old(self)@.team_id,
            final(self)@.player_ids == old(self)@.player_ids.push(player_id),
    {
        self.player_ids.push(player_id);
    }

    /// The number of players on the team.
    pub fn size(&self) -> (n: usize)
        ensures
            n == self@.player_ids.len(),
    {
        self.player_ids.len()
    }
}

/// The players of a team sequence, team by team in order.
pub open spec fn teams_flat(teams: Seq<TeamView>) -> Seq<u128>
    decreases teams.len(),
{
    if teams.len() == 0 {
        Seq::empty()
    } else {
        teams_flat(teams.drop_last()) + teams.last().player_ids
    }
}

/// Caps an index at a sequence length.
pub open spec fn clip_at(x: int, len: int) -> int {
    if x <= len {
        x
    } else {
        len
    }
}

/// A rule for distributing an ordered player list over teams of given
/// sizes. When the sizes add up to exactly the player count, the teams
/// must hold exactly the given players between them.
pub trait TeamAssignmentStrategy: Sized {
    /// Distributes `player_ids` over teams of the given sizes.
    fn assign_teams(&self, player_ids: Vec<u128>, team_sizes: &Vec<usize>) -> (r: Vec<Team>)
        ensures
            r.deep_view().len() == team_sizes@.len(),
            forall|t: int| 0 <= t < r.deep_view().len() ==> #[trigger] r.deep_view()[t].team_id
                == t,
            sum_sizes(team_sizes@) == player_ids@.len() ==> teams_flat(
                r.deep_view(),
            ).to_multiset() == player_ids@.to_multiset(),
    ;
}

/// The teams the sequential rule produces: team `t` holds the slice of
/// the player list between the running capacity before it and after it,
/// both capped at the list's length.
pub open spec fn sequential_teams(players: Seq<u128>, sizes: Seq<usize>) -> Seq<TeamView> {
    Seq::new(
        sizes.len(),
        |t: int|
            TeamView {
                team_id: t as usize,
                player_ids: players.subrange(
                    clip_at(sum_sizes(sizes.take(t)), players.len() as int),
                    clip_at(sum_sizes(sizes.take(t + 1)), players.len() as int),
                ),
            },
    )
}

/// The sequential rule: fill team 0 from the front of the list, then team
/// 1, and so on; players beyond the last team's capacity are left out.
pub struct SequentialAssignment;

impl SequentialAssignment {
    /// The sequential split itself, exactly: team `t` is the `t`-th
    /// consecutive slice of the player list, in index order.
    pub fn assign_in_order(&self, player_ids: Vec<u128>, team_sizes: &Vec<usize>) -> (r: Vec<Team>)
        ensures
            r.deep_view() == sequential_teams(player_ids@, team_sizes@),
            r.deep_view().len() == team_sizes@.len(),
            forall|t: int| 0 <= t < r.deep_view().len() ==> #[trigger] r.deep_view()[t].team_id
                == t,
            sum_sizes(team_sizes@) == player_ids@.len() ==> teams_flat(
                r.deep_view(),
            ).to_multiset() == player_ids@.to_multiset(),
    {
        let r = self.fill_in_order(player_ids, team_sizes);
        proof {
            let want = sequential_teams(player_ids@, team_sizes@);
            assert forall|t: int| 0 <= t < r.deep_view().len() implies #[trigger] r.deep_view()[t]
                == want[t] by {
                assert(r.deep_view()[t] =~= (TeamView {
                    team_id: t as usize,
                    player_ids: player_ids@.subrange(
                        clip_at(sum_sizes(team_sizes@.take(t)), player_ids@.len() as int),
                        clip_at(sum_sizes(team_sizes@.take(t + 1)), player_ids@.len() as int),
                    ),
                }));
            }
            assert(r.deep_view() =~= want);
        }
        r
    }
}

impl TeamAssignmentStrategy for SequentialAssignment {
    fn assign_teams(&self, player_ids: Vec<u128>, team_sizes: &Vec<usize>) -> (r: Vec<Team>) {
        self.assign_in_order(player_ids, team_sizes)
    }
}

impl SequentialAssignment {
    fn fill_in_order(&self, player_ids: Vec<u128>, team_sizes: &Vec<usize>) -> (r: Vec<Team>)
        ensures
            r.deep_view().len() == team_sizes@.len(),
            forall|t: int| 0 <= t < r.deep_view().len() ==> #[trigger] r.deep_view()[t].team_id
                == t,
            forall|t: int| 0 <= t < r.deep_view().len() ==> #[trigger] r.deep_view()[t].player_ids
                == player_ids@.subrange(
                clip_at(sum_sizes(team_sizes@.take(t)), player_ids@.len() as int),
                clip_at(sum_sizes(team_sizes@.take(t + 1)), player_ids@.len() as int),
            ),
            sum_sizes(team_sizes@) == player_ids@.len() ==> teams_flat(
                r.deep_view(),
            ).to_multiset() == player_ids@.to_multiset(),
    {
        let plen: usize = player_ids.len();
        let mut teams: Vec<Team> = Vec::new();
        let mut idx: usize = 0;
        let mut t: usize = 0;
        while t < team_sizes.len()
            invariant
                t <= team_sizes@.len(),
                teams.deep_view().len() == t,
                idx <= plen,
                plen == player_ids@.len(),
                idx == clip_at(sum_sizes(team_sizes@.take(t as int)), plen as int),
                forall|k: int| 0 <= k < t ==> #[trigger] teams.deep_view()[k].team_id == k,
                forall|k: int| 0 <= k < t ==> #[trigger] teams.deep_view()[k].player_ids
                    == player_ids@.subrange(
                    clip_at(sum_sizes(team_sizes@.take(k)), plen as int),
                    clip_at(sum_sizes(team_sizes@.take(k + 1)), plen as int),
                ),
            decreases team_sizes@.len() - t,
        {
            let size: usize = team_sizes[t];
            let ghost start = idx as int;
            let mut tp: Vec<u128> = Vec::new();
            let mut s: usize = 0;
            while s < size && idx < plen
                invariant
                    plen == player_ids@.len(),
                    s <= size,
                    idx <= plen,
                    tp@.len() == s,
                    idx == start + s,
                    0 <= start <= idx,
                    tp@ =~= player_ids@.subrange(start, idx as int),
                decreases size - s,
            {
                let ghost old_tp = tp@;
                tp.push(player_ids[idx]);
                proof {
                    assert(tp@ == old_tp.push(player_ids@[idx as int]));
                    assert(old_tp == player_ids@.subrange(start, idx as int));
                    assert(tp@ =~= player_ids@.subrange(start, idx + 1));
                }
                idx += 1;
                s += 1;
            }
            proof {
                crate::matcher::lemma_sum_take_step(team_sizes@, t as int);
                crate::matcher::lemma_sum_take_le(team_sizes@, t as int);
            }
            let ghost prev = teams.deep_view();
            teams.push(Team { team_id: t, player_ids: tp });
            proof {
                assert(teams.deep_view() =~= prev.push(
                    TeamView { team_id: t, player_ids: tp@ },
                ));
                assert(idx == clip_at(sum_sizes(team_sizes@.take(t + 1)), plen as int));
            }
            t += 1;
        }
        proof {
            assert(team_sizes@.take(team_sizes@.len() as int) =~= team_sizes@);
            lemma_sequential_flat(teams.deep_view(), player_ids@, team_sizes@, t as int);
            if sum_sizes(team_sizes@) == player_ids@.len() {
                assert(teams_flat(teams.deep_view()) =~= player_ids@);
            }
        }
        teams
    }
}

/// The flat players of sequentially assigned teams are exactly the front
/// of the player list, up to the capacity of the teams.
proof fn lemma_sequential_flat(
    teams: Seq<TeamView>,
    players: Seq<u128>,
    sizes: Seq<usize>,
    t: int,
)
    requires
        0 <= t <= sizes.len(),
        teams.len() == t,
        forall|k: int| 0 <= k < t ==> #[trigger] teams[k].player_ids == players.subrange(
            clip_at(sum_sizes(sizes.take(k)), players.len() as int),
            clip_at(sum_sizes(sizes.take(k + 1)), players.len() as int),
        ),
    ensures
        teams_flat(teams) == players.subrange(
            0,
            clip_at(sum_sizes(sizes.take(t)), players.len() as int),
        ),
    decreases t,
{
    if t == 0 {
        assert(sizes.take(0) =~= Seq::<usize>::empty());
        assert(teams_flat(teams) =~= players.subrange(0, 0));
    } else {
        lemma_sequential_flat(teams.drop_last(), players, sizes, t - 1);
        crate::matcher::lemma_sum_take_le(sizes, t - 1);
        crate::matcher::lemma_sum_take_le(sizes, t);
        crate::matcher::lemma_sum_take_step(sizes, t - 1);
        let a = clip_at(sum_sizes(sizes.take(t - 1)), players.len() as int);
        let b = clip_at(sum_sizes(sizes.take(t)), players.len() as int);
        assert(forall|k: int| 0 <= k < t - 1 ==> teams.drop_last()[k] == teams[k]);
        assert(teams_flat(teams) == teams_flat(teams.drop_last()) + teams.last().player_ids);
        assert(0 <= a <= b <= players.len());
        assert(players.subrange(0, a) + players.subrange(a, b) =~= players.subrange(0, b));
    }
}

/// The mathematical content of `LobbyMetadata`.
#[verifier::ext_equal]
pub ghost struct LobbyMetadataView {
    pub queue_name: Seq<char>,
    pub game_mode: Option<Seq<char>>,
    pub map_name: Option<Seq<char>>,
    pub server_id: Option<Seq<char>>,
    pub custom: Seq<(Seq<char>, Seq<char>)>,
}

/// Descriptive data attached to a lobby: where it came from and where it
/// was sent.
#[derive(Debug)]
pub struct LobbyMetadata {
    /// The queue the match was formed from.
    pub queue_name: String,
    /// The game mode, if the host names one.
    pub game_mode: Option<String>,
    /// The map to play, if the host names one.
    pub map_name: Option<String>,
    /// The server the lobby was dispatched to, once dispatched.
    pub server_id: Option<String>,
    /// Opaque custom key/value pairs.
    pub custom: Vec<(String, String)>,
}

impl View for LobbyMetadata {
    type V = LobbyMetadataView;

    open spec fn view(&self) -> LobbyMetadataView {
        LobbyMetadataView {
            queue_name: self.queue_name@,
            game_mode: match self.game_mode {
                Some(ref s) => Some(s@),
                None => None,
            },
            map_name: match self.map_name {
                Some(ref s) => Some(s@),
                None => None,
            },
            server_id: match self.server_id {
                Some(ref s) => Some(s@),
                None => None,
            },
            custom: self.custom@.map_values(|p: (String, String)| (p.0@, p.1@)),
        }
    }
}

/// The metadata of a lobby that nothing has been recorded about yet.
pub open spec fn empty_lobby_metadata() -> LobbyMetadataView {
    LobbyMetadataView {
        queue_name: Seq::empty(),
        game_mode: None,
        map_name: None,
        server_id: None,
        custom: Seq::empty(),
    }
}

impl Default for LobbyMetadata {
    /// Metadata with nothing recorded.
    fn default() -> (m: LobbyMetadata)
        ensures
            m@ =~= empty_lobby_metadata(),
    {
        LobbyMetadata {
            queue_name: String::new(),
            game_mode: None,
            map_name: None,
            server_id: None,
            custom: Vec::new(),
        }
    }
}

impl Clone for LobbyMetadata {
    /// A clone carries exactly the same metadata.
    fn clone(&self) -> (m: LobbyMetadata)
        ensures
            m@ == self@,
    {
        let m = LobbyMetadata {
            queue_name: self.queue_name.clone(),
            game_mode: clone_opt_string(&self.game_mode),
            map_name: clone_opt_string(&self.map_name),
            server_id: clone_opt_string(&self.server_id),
            custom: clone_string_pairs(&self.custom),
        };
        proof {
            assert(m@ =~= self@);
        }
        m
    }
}

/// Clones an optional string, value for value.
fn clone_opt_string(v: &Option<String>) -> (r: Option<String>)
    ensures
        r == *v,
{
    match v {
        Some(s) => Some(s.clone()),
        None => None,
    }
}

/// Clones a vector of string pairs, value for value.
fn clone_string_pairs(v: &Vec<(String, String)>) -> (r: Vec<(String, String)>)
    ensures
        r@ == v@,
{
    let mut r: Vec<(String, String)> = Vec::new();
    let mut i: usize = 0;
    while i < v.len()
        invariant
            i <= v.len(),
            r@ =~= v@.subrange(0, i as int),
        decreases v.len() - i,
    {
        let pair = (v[i].0.clone(), v[i].1.clone());
        proof {
            assert(pair == v@[i as int]);
        }
        r.push(pair);
        i += 1;
    }
    proof {
        assert(r@ =~= v@);
    }
    r
}

/// The mathematical content of a `Lobby`.
#[verifier::ext_equal]
pub ghost struct LobbyView {
    pub id: u128,
    pub match_id: u128,
    pub state: LobbyState,
    pub teams: Seq<TeamView>,
    pub player_ids: Seq<u128>,
    pub ready_players: Seq<u128>,
    pub created_at: i64,
    pub metadata: LobbyMetadataView,
}

impl LobbyView {
    /// The lobby invariant: the teams hold exactly the flat participant
    /// list between them (so no participant sits in two teams), the
    /// participants are distinct, team indices match positions, and the
    /// ready set is a duplicate-free subset of the participants.
    pub open spec fn wf(self) -> bool {
        &&& teams_flat(self.teams).to_multiset() == self.player_ids.to_multiset()
        &&& self.player_ids.no_duplicates()
        &&& self.ready_players.no_duplicates()
        &&& forall|k: int| 0 <= k < self.ready_players.len() ==> self.player_ids.contains(
            #[trigger] self.ready_players[k],
        )
        &&& forall|t: int| 0 <= t < self.teams.len() ==> #[trigger] self.teams[t].team_id == t
    }
}

/// What `mark_player_ready` does to a lobby once the player is known to
/// be a participant: add the player to the ready set, and when that
/// completes the set while the lobby was waiting for ready checks, move
/// it to `Ready`.
pub open spec fn mark_ready_spec(l: LobbyView, player_id: u128) -> LobbyView {
    let ready = if l.ready_players.contains(player_id) {
        l.ready_players
    } else {
        l.ready_players.push(player_id)
    };
    let state = if ready.len() == l.player_ids.len() && l.state == LobbyState::WaitingForReady {
        LobbyState::Ready
    } else {
        l.state
    };
    LobbyView {
        state,
        ready_players: ready,
        id: l.id,
        match_id: l.match_id,
        teams: l.teams,
        player_ids: l.player_ids,
        created_at: l.created_at,
        metadata: l.metadata,
    }
}

/// Marking a ready player ready again changes nothing: the operation is
/// idempotent for every participant.
pub proof fn lemma_mark_ready_idempotent(l: LobbyView, player_id: u128)
    ensures
        mark_ready_spec(mark_ready_spec(l, player_id), player_id) == mark_ready_spec(l, player_id),
{
    let once = mark_ready_spec(l, player_id);
    assert(once.ready_players.contains(player_id)) by {
        if !l.ready_players.contains(player_id) {
            assert(once.ready_players.last() == player_id);
        }
    }
    assert(mark_ready_spec(once, player_id) =~= once);
}

/// A lobby: a matched set of players, their team split, the ready set,
/// and the state machine driving the lobby to dispatch.
#[derive(Debug)]
pub struct Lobby {
    /// Opaque id of the lobby.
    pub id: u128,
    /// The match the lobby was materialized from.
    pub match_id: u128,
    /// Where the lobby stands in its lifecycle.
    pub state: LobbyState,
    /// The team split of the participants.
    pub teams: Vec<Team>,
    /// The flat participant list.
    pub player_ids: Vec<u128>,
    /// The participants who have confirmed ready.
    pub ready_players: Vec<u128>,
    /// When the lobby was created, in unix milliseconds.
    pub created_at: i64,
    /// Descriptive data: source queue, mode, dispatched server.
    pub metadata: LobbyMetadata,
}

impl View for Lobby {
    type V = LobbyView;

    open spec fn view(&self) -> LobbyView {
        LobbyView {
            id: self.id,
            match_id: self.match_id,
            state: self.state,
            teams: self.teams.deep_view(),
            player_ids: self.player_ids@,
            ready_players: self.ready_players@,
            created_at: self.created_at,
            metadata: self.metadata@,
        }
    }
}

impl DeepView for Lobby {
    type V = LobbyView;

    open spec fn deep_view(&self) -> LobbyView {
        self@
    }
}

impl Clone for Lobby {
    /// A clone carries exactly the same lobby.
    fn clone(&self) -> (l: Lobby)
        ensures
            l@ == self@,
    {
        let mut teams: Vec<Team> = Vec::new();
        let mut i: usize = 0;
        while i < self.teams.len()
            invariant
                i <= self.teams.len(),
                teams.deep_view() =~= self.teams.deep_view().subrange(0, i as int),
            decreases self.teams.len() - i,
        {
            let ghost prev = teams.deep_view();
            teams.push(self.teams[i].clone());
            proof {
                assert(teams.deep_view() =~= prev.push(self.teams.deep_view()[i as int]));
            }
            i += 1;
        }
        proof {
            assert(teams.deep_view() =~= self.teams.deep_view());
        }
        let l = Lobby {
            id: self.id,
            match_id: self.match_id,
            state: self.state,
            teams,
            player_ids: clone_ids(&self.player_ids),
            ready_players: clone_ids(&self.ready_players),
            created_at: self.created_at,
            metadata: self.metadata.clone(),
        };
        proof {
            assert(l@ =~= self@);
        }
        l
    }
}

/// The flat participant list of a match: the players of its entries, in
/// entry order.
pub open spec fn match_flat_players(m: MatchView) -> Seq<u128>
    decreases m.entries.len(),
{
    entries_flat_players(m.entries)
}

/// The players of a sequence of entries, in order.
pub open spec fn entries_flat_players(entries: Seq<EntryView>) -> Seq<u128>
    decreases entries.len(),
{
    if entries.len() == 0 {
        Seq::empty()
    } else {
        entries_flat_players(entries.drop_last()) + entries.last().player_ids
    }
}

/// Collects the players of the entries of a match, in order.
pub(crate) fn collect_match_players(m: &MatchResult) -> (r: Vec<u128>)
    ensures
        r@ == match_flat_players(m@),
{
    let mut r: Vec<u128> = Vec::new();
    let mut i: usize = 0;
    while i < m.entries.len()
        invariant
            i <= m.entries.len(),
            r@ =~= entries_flat_players(m.entries.deep_view().take(i as int)),
        decreases m.entries.len() - i,
    {
        let mut k: usize = 0;
        let entry = &m.entries[i];
        while k < entry.player_ids.len()
            invariant
                k <= entry.player_ids@.len(),
                i < m.entries@.len(),
                entry.player_ids@ == m.entries.deep_view()[i as int].player_ids,
                r@ =~= entries_flat_players(m.entries.deep_view().take(i as int))
                    + entry.player_ids@.subrange(0, k as int),
            decreases entry.player_ids@.len() - k,
        {
            r.push(entry.player_ids[k]);
            k += 1;
            proof {
                assert(r@ =~= entries_flat_players(m.entries.deep_view().take(i as int))
                    + entry.player_ids@.subrange(0, k as int));
            }
        }
        proof {
            let taken = m.entries.deep_view().take(i + 1);
            assert(taken.drop_last() =~= m.entries.deep_view().take(i as int));
            assert(taken.last() == m.entries.deep_view()[i as int]);
            assert(entry.player_ids@.subrange(0, entry.player_ids@.len() as int)
                =~= entry.player_ids@);
            assert(r@ =~= entries_flat_players(taken));
        }
        i += 1;
    }
    proof {
        assert(m.entries.deep_view().take(m.entries.deep_view().len() as int)
            =~= m.entries.deep_view());
    }
    r
}

/// The flat player list is exactly as long as the entries' player count.
pub proof fn lemma_entries_flat_len(entries: Seq<EntryView>)
    ensures
        entries_flat_players(entries).len() == sum_players(entries),
    decreases entries.len(),
{
    if entries.len() > 0 {
        lemma_entries_flat_len(entries.drop_last());
    }
}

/// A participant of any entry occurs in the flat player list.
pub proof fn lemma_entries_flat_covers(entries: Seq<EntryView>, i: int, p: u128)
    requires
        0 <= i < entries.len(),
        entries[i].player_ids.contains(p),
    ensures
        entries_flat_players(entries).contains(p),
    decreases entries.len(),
{
    let flat = entries_flat_players(entries);
    let rest = entries_flat_players(entries.drop_last());
    if i == entries.len() - 1 {
        let j = choose|j: int|
            0 <= j < entries[i].player_ids.len() && entries[i].player_ids[j] == p;
        assert(flat[rest.len() + j] == p);
    } else {
        lemma_entries_flat_covers(entries.drop_last(), i, p);
        let j = choose|j: int| 0 <= j < rest.len() && rest[j] == p;
        assert(flat[j] == p);
    }
}

/// A player in the flat list comes from some entry.
pub proof fn lemma_entries_flat_source(entries: Seq<EntryView>, p: u128)
    requires
        entries_flat_players(entries).contains(p),
    ensures
        exists|i: int| 0 <= i < entries.len() && (#[trigger] entries[i]).player_ids.contains(p),
    decreases entries.len(),
{
    let flat = entries_flat_players(entries);
    let rest = entries_flat_players(entries.drop_last());
    let j = choose|j: int| 0 <= j < flat.len() && flat[j] == p;
    if j < rest.len() {
        assert(rest[j] == p);
        lemma_entries_flat_source(entries.drop_last(), p);
        let i = choose|i: int|
            0 <= i < entries.drop_last().len() && (#[trigger] entries.drop_last()[i]).player_ids
                .contains(p);
        assert(entries[i].player_ids.contains(p));
    } else {
        assert(entries.last().player_ids[j - rest.len()] == p);
        assert(entries[entries.len() - 1].player_ids.contains(p));
    }
}

impl Lobby {
    /// Materializes a match into a forming lobby, splitting the players
    /// over teams of the given sizes in order. The participants must be
    /// distinct and the team sizes must add up to the match's player
    /// count; both hold of every match the matcher emits from a
    /// well-formed queue.
    pub fn from_match_result(
        match_result: MatchResult,
        team_sizes: Vec<usize>,
        metadata: LobbyMetadata,
        created_at_ms: i64,
    ) -> (l: Lobby)
        requires
            match_flat_players(match_result@).no_duplicates(),
            sum_sizes(team_sizes@) == match_flat_players(match_result@).len(),
        ensures
            l@.wf(),
            l@.match_id == match_result@.match_id,
            l@.state == LobbyState::Forming,
            l@.player_ids == match_flat_players(match_result@),
            l@.ready_players =~= Seq::<u128>::empty(),
            l@.created_at == created_at_ms,
            l@.metadata == metadata@,
            l@.teams.len() == team_sizes@.len(),
            l@.teams == sequential_teams(match_flat_players(match_result@), team_sizes@),
    {
        let strategy = SequentialAssignment;
        let player_ids = collect_match_players(&match_result);
        let teams = strategy.assign_in_order(clone_ids(&player_ids), &team_sizes);
        let l = Lobby {
            id: fresh_id(),
            match_id: match_result.match_id,
            state: LobbyState::Forming,
            teams,
            player_ids,
            ready_players: Vec::new(),
            created_at: created_at_ms,
            metadata,
        };
        l
    }

    /// Materializes a match into a forming lobby with a caller-chosen
    /// team assignment rule.
    pub fn from_match_result_custom<S: TeamAssignmentStrategy>(
        match_result: MatchResult,
        team_sizes: Vec<usize>,
        metadata: LobbyMetadata,
        created_at_ms: i64,
        strategy: &S,
    ) -> (l: Lobby)
        requires
            match_flat_players(match_result@).no_duplicates(),
            sum_sizes(team_sizes@) == match_flat_players(match_result@).len(),
        ensures
            l@.wf(),
            l@.match_id == match_result@.match_id,
            l@.state == LobbyState::Forming,
            l@.player_ids == match_flat_players(match_result@),
            l@.ready_players =~= Seq::<u128>::empty(),
            l@.created_at == created_at_ms,
            l@.metadata == metadata@,
            l@.teams.len() == team_sizes@.len(),
    {
        let player_ids = collect_match_players(&match_result);
        let teams = strategy.assign_teams(clone_ids(&player_ids), &team_sizes);
        let l = Lobby {
            id: fresh_id(),
            match_id: match_result.match_id,
            state: LobbyState::Forming,
            teams,
            player_ids,
            ready_players: Vec::new(),
            created_at: created_at_ms,
            metadata,
        };
        l
    }

    /// Moves the lobby to `new_state` when the state machine allows it,
    /// and reports the refused transition otherwise, changing nothing.
    pub fn transition_to(&mut self, new_state: LobbyState) -> (r: Result<(), MatchForgeError>)
        ensures
            match r {
                Ok(()) => transition_allowed(old(self)@.state, new_state) && final(self)@
                    == (LobbyView { state: new_state, ..old(self)@ }),
                Err(e) => !transition_allowed(old(self)@.state, new_state) && final(self)@ == old(self)@ && e is OperationFailed,
            },
            old(self)@.wf() ==> final(self)@.wf(),
    {
        if self.state.can_transition_to(new_state) {
            self.state = new_state;
            proof {
                assert(self@ =~= (LobbyView { state: new_state, ..old(self)@ }));
            }
            Ok(())
        } else {
            Err(MatchForgeError::OperationFailed("the lobby state machine refuses this transition".to_string()))
        }
    }

    /// Records that a participant is ready. Fails when the player is not
    /// a participant of the lobby; once every participant is ready and
    /// the lobby was waiting for checks, it moves to `Ready` by itself.
    /// The operation is idempotent for a player who is already ready.
    pub fn mark_player_ready(&mut self, player_id: u128) -> (r: Result<(), MatchForgeError>)
        ensures
            old(self)@.wf() ==> final(self)@.wf(),
            match r {
                Ok(()) => old(self)@.player_ids.contains(player_id) && final(self)@
                    == mark_ready_spec(old(self)@, player_id),
                Err(e) => !old(self)@.player_ids.contains(player_id) && final(self)@ == old(self)@ && (e matches MatchForgeError::PlayerNotFound(p) && p == player_id),
            },
    {
        if !contains_id(&self.player_ids, player_id) {
            return Err(MatchForgeError::PlayerNotFound(player_id));
        }
        if !contains_id(&self.ready_players, player_id) {
            self.ready_players.push(player_id);
        }
        if self.ready_players.len() == self.player_ids.len() && self.state
            == LobbyState::WaitingForReady {
            self.state = LobbyState::Ready;
        }
        proof {
            assert(self@ =~= mark_ready_spec(old(self)@, player_id));
        }
        Ok(())
    }

    /// Whether every participant has confirmed ready.
    pub fn all_players_ready(&self) -> (b: bool)
        ensures
            b == (self@.ready_players.len() == self@.player_ids.len()),
    {
        self.ready_players.len() == self.player_ids.len()
    }

    /// The label of the team a participant plays on, if any. In a
    /// well-formed lobby the label equals the team's index.
    pub fn get_player_team(&self, player_id: u128) -> (r: Option<usize>)
        ensures
            match r {
                Some(t) => lobby_team_of(self@, player_id, t),
                None => forall|t: int| 0 <= t < self@.teams.len() ==> !(
                #[trigger] self@.teams[t].player_ids.contains(player_id)),
            },
    {
        let mut t: usize = 0;
        while t < self.teams.len()
            invariant
                t <= self.teams@.len(),
                forall|k: int| 0 <= k < t ==> !(#[trigger] self.teams.deep_view()[k].player_ids
                    .contains(player_id)),
            decreases self.teams@.len() - t,
        {
            if contains_id(&self.teams[t].player_ids, player_id) {
                proof {
                    assert(self@.teams[t as int].player_ids.contains(player_id));
                }
                return Some(self.teams[t].team_id);
            }
            t += 1;
        }
        None
    }
}

/// Whether the lobby fields the participant on a team labelled `t`.
pub open spec fn lobby_team_of(l: LobbyView, player_id: u128, t: usize) -> bool {
    exists|k: int|
        0 <= k < l.teams.len() && (#[trigger] l.teams[k]).team_id == t && l.teams[k].player_ids
            .contains(player_id)
}

/// Inside a well-formed lobby no participant sits in two teams.
pub proof fn lemma_no_player_in_two_teams(l: LobbyView, t1: int, t2: int, p: u128)
    requires
        l.wf(),
        0 <= t1 < t2 < l.teams.len(),
        l.teams[t1].player_ids.contains(p),
    ensures
        !l.teams[t2].player_ids.contains(p),
{
    broadcast use vstd::multiset::group_multiset_axioms;

    let flat = teams_flat(l.teams);
    l.player_ids.lemma_multiset_has_no_duplicates();
    if l.teams[t2].player_ids.contains(p) {
        lemma_flat_count_two(l.teams, t1, t2, p);
        assert(flat.to_multiset().count(p) >= 2);
        assert(l.player_ids.to_multiset().count(p) >= 2);
        assert(l.player_ids.to_multiset().contains(p));
        assert(false);
    }
}

/// A player found in two distinct teams occurs at least twice in the
/// flat list.
proof fn lemma_flat_count_two(teams: Seq<TeamView>, t1: int, t2: int, p: u128)
    requires
        0 <= t1 < t2 < teams.len(),
        teams[t1].player_ids.contains(p),
        teams[t2].player_ids.contains(p),
    ensures
        teams_flat(teams).to_multiset().count(p) >= 2,
    decreases teams.len(),
{
    lemma_flat_count_at_least(teams.take(t2 + 1), t1, t2, p);
    lemma_flat_prefix_counts(teams, t2 + 1, p);
}

/// Counting over a prefix never exceeds counting over the whole.
proof fn lemma_flat_prefix_counts(teams: Seq<TeamView>, k: int, p: u128)
    requires
        0 <= k <= teams.len(),
    ensures
        teams_flat(teams).to_multiset().count(p) >= teams_flat(teams.take(k)).to_multiset().count(
            p,
        ),
    decreases teams.len() - k,
{
    if k < teams.len() {
        lemma_flat_prefix_counts(teams, k + 1, p);
        assert(teams.take(k + 1).drop_last() =~= teams.take(k));
        lemma_multiset_commutative(teams_flat(teams.take(k)), teams.take(k + 1).last().player_ids);
        assert(teams_flat(teams.take(k + 1)) == teams_flat(teams.take(k)) + teams[
            k
        ].player_ids);
    } else {
        assert(teams.take(k) =~= teams);
    }
}

/// Two team memberships below `t2` put two occurrences in the flat list
/// of the first `t2 + 1` teams.
proof fn lemma_flat_count_at_least(teams: Seq<TeamView>, t1: int, t2: int, p: u128)
    requires
        0 <= t1 < t2 < teams.len(),
        t2 == teams.len() - 1,
        teams[t1].player_ids.contains(p),
        teams[t2].player_ids.contains(p),
    ensures
        teams_flat(teams).to_multiset().count(p) >= 2,
{
    lemma_flat_member_counts(teams.drop_last(), t1, p);
    lemma_multiset_commutative(teams_flat(teams.drop_last()), teams.last().player_ids);
    teams.last().player_ids.to_multiset_ensures();
    assert(teams.last().player_ids.to_multiset().count(p) >= 1);
}

/// A team membership puts at least one occurrence in the flat list.
proof fn lemma_flat_member_counts(teams: Seq<TeamView>, t: int, p: u128)
    requires
        0 <= t < teams.len(),
        teams[t].player_ids.contains(p),
    ensures
        teams_flat(teams).to_multiset().count(p) >= 1,
    decreases teams.len(),
{
    if t == teams.len() - 1 {
        lemma_multiset_commutative(teams_flat(teams.drop_last()), teams.last().player_ids);
        teams.last().player_ids.to_multiset_ensures();
    } else {
        lemma_flat_member_counts(teams.drop_last(), t, p);
        lemma_multiset_commutative(teams_flat(teams.drop_last()), teams.last().player_ids);
    }
}

} // verus!

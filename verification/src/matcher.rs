//! Match formats and the greedy matcher: given a snapshot of queue
//! entries, pick a pairwise-compatible set of entries that exactly fills
//! the format and assign them to teams in order, never splitting an entry
//! across teams.

use vstd::prelude::*;

verus! {

use vstd::string::StringExecFns;
use crate::constraints::{MatchConstraints, ConstraintsView, can_match_spec};
use crate::entry::{EntryView, QueueEntry};
use crate::idgen::fresh_id;

/// The character of one decimal digit.
pub open spec fn digit_char(d: int) -> char {
    if d == 0 { '0' }
    else if d == 1 { '1' }
    else if d == 2 { '2' }
    else if d == 3 { '3' }
    else if d == 4 { '4' }
    else if d == 5 { '5' }
    else if d == 6 { '6' }
    else if d == 7 { '7' }
    else if d == 8 { '8' }
    else { '9' }
}

/// The decimal representation of a non-negative number, most significant
/// digit first.
pub open spec fn dec_rep(n: int) -> Seq<char>
    decreases n,
{
    if n < 10 {
        seq![digit_char(n)]
    } else {
        dec_rep(n / 10).push(digit_char(n % 10))
    }
}

/// Appends the decimal representation of `n` to `s`.
fn append_decimal(s: &mut String, n: usize)
    ensures
        final(s)@ == old(s)@ + dec_rep(n as int),
    decreases n,
{
    if n >= 10 {
        append_decimal(s, n / 10);
    }
    let d: usize = n % 10;
    proof {
        reveal_strlit("0");
        reveal_strlit("1");
        reveal_strlit("2");
        reveal_strlit("3");
        reveal_strlit("4");
        reveal_strlit("5");
        reveal_strlit("6");
        reveal_strlit("7");
        reveal_strlit("8");
        reveal_strlit("9");
    }
    match d {
        0 => s.append("0"),
        1 => s.append("1"),
        2 => s.append("2"),
        3 => s.append("3"),
        4 => s.append("4"),
        5 => s.append("5"),
        6 => s.append("6"),
        7 => s.append("7"),
        8 => s.append("8"),
        _ => s.append("9"),
    }
    proof {
        if n >= 10 {
            assert(final(s)@ =~= old(s)@ + dec_rep(n as int));
        } else {
            assert(final(s)@ =~= old(s)@ + dec_rep(n as int));
        }
    }
}

/// The sum of a sequence of team sizes.
pub open spec fn sum_sizes(sizes: Seq<usize>) -> int
    decreases sizes.len(),
{
    if sizes.len() == 0 {
        0
    } else {
        sum_sizes(sizes.drop_last()) + sizes.last()
    }
}

/// The mathematical content of a `MatchFormat`.
#[verifier::ext_equal]
pub ghost struct FormatView {
    pub name: Seq<char>,
    pub team_sizes: Seq<usize>,
    pub total_players: usize,
}

impl FormatView {
    /// A format is well formed when its player total is the sum of its
    /// team sizes.
    pub open spec fn wf(self) -> bool {
        self.total_players == sum_sizes(self.team_sizes)
    }
}

/// A named match shape: an ordered team-size vector and the player total
/// it adds up to.
#[derive(Debug)]
pub struct MatchFormat {
    /// Display name of the shape, e.g. "5v5".
    pub name: String,
    /// The ordered team sizes.
    pub team_sizes: Vec<usize>,
    /// The total number of players, always the sum of `team_sizes`.
    pub total_players: usize,
}

impl View for MatchFormat {
    type V = FormatView;

    open spec fn view(&self) -> FormatView {
        FormatView {
            name: self.name@,
            team_sizes: self.team_sizes@,
            total_players: self.total_players,
        }
    }
}

impl Clone for MatchFormat {
    /// A clone carries exactly the same shape.
    fn clone(&self) -> (f: MatchFormat)
        ensures
            f@ == self@,
    {
        let mut sizes: Vec<usize> = Vec::new();
        let mut i: usize = 0;
        while i < self.team_sizes.len()
            invariant
                i <= self.team_sizes.len(),
                sizes@ =~= self.team_sizes@.subrange(0, i as int),
            decreases self.team_sizes.len() - i,
        {
            sizes.push(self.team_sizes[i]);
            i += 1;
        }
        proof {
            assert(sizes@ =~= self.team_sizes@);
        }
        let f = MatchFormat {
            name: self.name.clone(),
            team_sizes: sizes,
            total_players: self.total_players,
        };
        proof {
            assert(f@ =~= self@);
        }
        f
    }
}

impl MatchFormat {
    /// The 1v1 duel format.
    pub fn one_v_one() -> (f: MatchFormat)
        ensures
            f@.name =~= "1v1"@,
            f@.team_sizes =~= seq![1usize, 1usize],
            f@.total_players == 2,
            f@.wf(),
    {
        let mut sizes: Vec<usize> = Vec::new();
        sizes.push(1);
        sizes.push(1);
        proof {
            lemma_sum_two(sizes@);
        }
        proof {
            reveal_strlit("1v1");
        }
        MatchFormat { name: "1v1".to_string(), team_sizes: sizes, total_players: 2 }
    }

    /// The 2v2 duo format.
    pub fn two_v_two() -> (f: MatchFormat)
        ensures
            f@.name =~= "2v2"@,
            f@.team_sizes =~= seq![2usize, 2usize],
            f@.total_players == 4,
            f@.wf(),
    {
        let mut sizes: Vec<usize> = Vec::new();
        sizes.push(2);
        sizes.push(2);
        proof {
            lemma_sum_two(sizes@);
        }
        proof {
            reveal_strlit("2v2");
        }
        MatchFormat { name: "2v2".to_string(), team_sizes: sizes, total_players: 4 }
    }

    /// The 5v5 squad format.
    pub fn five_v_five() -> (f: MatchFormat)
        ensures
            f@.name =~= "5v5"@,
            f@.team_sizes =~= seq![5usize, 5usize],
            f@.total_players == 10,
            f@.wf(),
    {
        let mut sizes: Vec<usize> = Vec::new();
        sizes.push(5);
        sizes.push(5);
        proof {
            lemma_sum_two(sizes@);
        }
        proof {
            reveal_strlit("5v5");
        }
        MatchFormat { name: "5v5".to_string(), team_sizes: sizes, total_players: 10 }
    }

    /// Two equal teams of `team_size` players, named "NvN".
    pub fn team_v_team(team_size: usize) -> (f: MatchFormat)
        requires
            team_size <= usize::MAX / 2,
        ensures
            f@.team_sizes =~= seq![team_size, team_size],
            f@.total_players == 2 * team_size,
            f@.name =~= dec_rep(team_size as int) + seq!['v'] + dec_rep(team_size as int),
            f@.wf(),
    {
        let mut name = String::new();
        append_decimal(&mut name, team_size);
        proof {
            reveal_strlit("v");
        }
        name.append("v");
        append_decimal(&mut name, team_size);
        let mut sizes: Vec<usize> = Vec::new();
        sizes.push(team_size);
        sizes.push(team_size);
        proof {
            lemma_sum_two(sizes@);
        }
        MatchFormat { name, team_sizes: sizes, total_players: 2 * team_size }
    }

    /// `player_count` teams of one player each: free-for-all.
    pub fn free_for_all(player_count: usize) -> (f: MatchFormat)
        ensures
            f@.team_sizes =~= Seq::new(player_count as nat, |i: int| 1usize),
            f@.total_players == player_count,
            f@.wf(),
    {
        let mut name = String::new();
        append_decimal(&mut name, player_count);
        proof {
            reveal_strlit("-player-ffa");
        }
        name.append("-player-ffa");
        let mut sizes: Vec<usize> = Vec::new();
        let mut i: usize = 0;
        while i < player_count
            invariant
                i <= player_count,
                sizes@.len() == i,
                forall|j: int| 0 <= j < i ==> sizes@[j] == 1usize,
                sum_sizes(sizes@) == i,
            decreases player_count - i,
        {
            let ghost prev = sizes@;
            sizes.push(1);
            proof {
                assert(sizes@.drop_last() =~= prev);
            }
            i += 1;
        }
        proof {
            assert(sizes@ =~= Seq::new(player_count as nat, |i: int| 1usize));
        }
        MatchFormat { name, team_sizes: sizes, total_players: player_count }
    }

    /// The total number of players a match of this format fields.
    pub fn players_per_match(&self) -> (n: usize)
        ensures
            n == self@.total_players,
    {
        self.total_players
    }

    /// How many teams the format has.
    pub fn team_count(&self) -> (n: usize)
        ensures
            n == self@.team_sizes.len(),
    {
        self.team_sizes.len()
    }

    /// The size of team `team_index`, if the format has such a team.
    pub fn team_size(&self, team_index: usize) -> (s: Option<usize>)
        ensures
            match s {
                Some(n) => team_index < self@.team_sizes.len()
                    && n == self@.team_sizes[team_index as int],
                None => team_index >= self@.team_sizes.len(),
            },
    {
        if team_index < self.team_sizes.len() {
            Some(self.team_sizes[team_index])
        } else {
            None
        }
    }
}

/// The sum of a two-element size vector, spelled out.
proof fn lemma_sum_two(sizes: Seq<usize>)
    requires
        sizes.len() == 2,
    ensures
        sum_sizes(sizes) == sizes[0] + sizes[1],
{
    assert(sizes.drop_last().drop_last() =~= Seq::<usize>::empty());
    assert(sizes.drop_last().last() == sizes[0]);
    assert(sum_sizes(sizes.drop_last()) == sum_sizes(sizes.drop_last().drop_last())
        + sizes.drop_last().last());
    assert(sum_sizes(Seq::<usize>::empty()) == 0);
}

/// The mathematical content of a `MatchResult`.
#[verifier::ext_equal]
pub ghost struct MatchView {
    pub match_id: u128,
    pub entries: Seq<EntryView>,
    pub team_assignments: Seq<usize>,
}

/// A committed match: the selected entries and the team index each entry
/// was assigned to.
#[derive(Debug)]
pub struct MatchResult {
    /// Opaque id of the match.
    pub match_id: u128,
    /// The selected entries, longest-waiting first.
    pub entries: Vec<QueueEntry>,
    /// For each entry, the team it plays on.
    pub team_assignments: Vec<usize>,
}

impl View for MatchResult {
    type V = MatchView;

    open spec fn view(&self) -> MatchView {
        MatchView {
            match_id: self.match_id,
            entries: self.entries.deep_view(),
            team_assignments: self.team_assignments@,
        }
    }
}

impl DeepView for MatchResult {
    type V = MatchView;

    open spec fn deep_view(&self) -> MatchView {
        self@
    }
}

impl Clone for MatchResult {
    /// A clone carries exactly the same match.
    fn clone(&self) -> (m: MatchResult)
        ensures
            m@ == self@,
    {
        let mut entries: Vec<QueueEntry> = Vec::new();
        let mut i: usize = 0;
        while i < self.entries.len()
            invariant
                i <= self.entries.len(),
                entries.deep_view() =~= self.entries.deep_view().subrange(0, i as int),
            decreases self.entries.len() - i,
        {
            let ghost prev = entries.deep_view();
            entries.push(self.entries[i].clone());
            proof {
                assert(entries.deep_view() =~= prev.push(self.entries.deep_view()[i as int]));
            }
            i += 1;
        }
        proof {
            assert(entries.deep_view() =~= self.entries.deep_view());
        }
        let mut assigns: Vec<usize> = Vec::new();
        let mut j: usize = 0;
        while j < self.team_assignments.len()
            invariant
                j <= self.team_assignments.len(),
                assigns@ =~= self.team_assignments@.subrange(0, j as int),
            decreases self.team_assignments.len() - j,
        {
            assigns.push(self.team_assignments[j]);
            j += 1;
        }
        proof {
            assert(assigns@ =~= self.team_assignments@);
        }
        let m = MatchResult { match_id: self.match_id, entries, team_assignments: assigns };
        proof {
            assert(m@ =~= self@);
        }
        m
    }
}

/// The number of players across a sequence of entries.
pub open spec fn sum_players(entries: Seq<EntryView>) -> int
    decreases entries.len(),
{
    if entries.len() == 0 {
        0
    } else {
        sum_players(entries.drop_last()) + entries.last().player_ids.len()
    }
}

/// The number of players that `assignments` sends to team `t`.
pub open spec fn team_fill(entries: Seq<EntryView>, assignments: Seq<usize>, t: int) -> int
    decreases entries.len(),
{
    if entries.len() == 0 || assignments.len() != entries.len() {
        0
    } else {
        team_fill(entries.drop_last(), assignments.drop_last(), t) + if assignments.last() == t {
            entries.last().player_ids.len() as int
        } else {
            0
        }
    }
}

/// No participant appears in two entries of the sequence.
pub open spec fn match_entries_disjoint(entries: Seq<EntryView>) -> bool {
    forall|i: int, j: int, p: u128|
        0 <= i < j < entries.len() ==> !(#[trigger] entries[i].player_ids.contains(p)
            && #[trigger] entries[j].player_ids.contains(p))
}

/// Every entry of the sequence carries at least one participant.
pub open spec fn entries_nonempty(entries: Seq<EntryView>) -> bool {
    forall|i: int| 0 <= i < entries.len() ==> (#[trigger] entries[i]).player_ids.len() >= 1
}

/// The shape half of match validity: the selected entries' players sum
/// exactly to the format's total, the team assignment fills every team to
/// exactly its size without splitting any entry, and every pair of
/// selected entries is compatible at the moment of emission.
pub open spec fn match_fills_format(
    f: FormatView,
    c: ConstraintsView,
    m: MatchView,
    now_ms: i64,
) -> bool {
    &&& m.entries.len() >= 1
    &&& sum_players(m.entries) == f.total_players
    &&& m.team_assignments.len() == m.entries.len()
    &&& forall|k: int| 0 <= k < m.team_assignments.len() ==> m.team_assignments[k]
        < f.team_sizes.len()
    &&& forall|t: int| 0 <= t < f.team_sizes.len() ==> team_fill(
        m.entries,
        m.team_assignments,
        t,
    ) == f.team_sizes[t]
    &&& forall|i: int, j: int| 0 <= i < j < m.entries.len() ==> can_match_spec(
        c,
        m.entries[i],
        m.entries[j],
        now_ms,
    )
}

/// Full match validity: the match fills the format under the constraints
/// and no participant appears in two of its entries.
pub open spec fn valid_match(
    f: FormatView,
    c: ConstraintsView,
    m: MatchView,
    now_ms: i64,
) -> bool {
    &&& match_fills_format(f, c, m, now_ms)
    &&& match_entries_disjoint(m.entries)
}

/// Ordering of entries in the matcher's working copy: by join time
/// ascending, ties broken by entry id for determinism.
pub open spec fn entry_le(a: EntryView, b: EntryView) -> bool {
    a.joined_at < b.joined_at || (a.joined_at == b.joined_at && a.id <= b.id)
}

/// Whether a sequence of entries is sorted longest-waiting first.
pub open spec fn sorted_by_join(entries: Seq<EntryView>) -> bool {
    forall|i: int, j: int| 0 <= i < j < entries.len() ==> entry_le(entries[i], entries[j])
}

/// Strict ordering of entries: earlier join time, ties broken by a
/// smaller id.
pub open spec fn entry_less_spec(a: EntryView, b: EntryView) -> bool {
    a.joined_at < b.joined_at || (a.joined_at == b.joined_at && a.id < b.id)
}

/// Strict counterpart of `entry_le`.
fn entry_less(a: &QueueEntry, b: &QueueEntry) -> (r: bool)
    ensures
        r == entry_less_spec(a@, b@),
{
    a.joined_at < b.joined_at || (a.joined_at == b.joined_at && a.id < b.id)
}

/// Places `e` before the suffix of strictly later entries: the insertion
/// step of the stable sort.
pub open spec fn insert_sorted(s: Seq<EntryView>, e: EntryView) -> Seq<EntryView>
    decreases s.len(),
{
    if s.len() == 0 {
        seq![e]
    } else if entry_less_spec(e, s.last()) {
        insert_sorted(s.drop_last(), e).push(s.last())
    } else {
        s.push(e)
    }
}

/// The stable sort of a snapshot by join time (ties by id, equal keys in
/// admission order): the order the greedy matcher scans.
pub open spec fn sort_by_join_spec(s: Seq<EntryView>) -> Seq<EntryView>
    decreases s.len(),
{
    if s.len() == 0 {
        Seq::empty()
    } else {
        insert_sorted(sort_by_join_spec(s.drop_last()), s.last())
    }
}

/// Inserting at the first position (from the right) whose predecessor is
/// not strictly later lands exactly where `insert_sorted` puts it.
proof fn lemma_insert_sorted_at(s: Seq<EntryView>, e: EntryView, pos: int)
    requires
        0 <= pos <= s.len(),
        forall|k: int| pos <= k < s.len() ==> entry_less_spec(e, #[trigger] s[k]),
        pos > 0 ==> !entry_less_spec(e, s[pos - 1]),
    ensures
        insert_sorted(s, e) == s.insert(pos, e),
    decreases s.len(),
{
    if s.len() == 0 {
        assert(insert_sorted(s, e) =~= s.insert(0, e));
    } else if pos == s.len() {
        assert(!entry_less_spec(e, s.last()));
        assert(insert_sorted(s, e) =~= s.insert(pos, e));
    } else {
        assert(entry_less_spec(e, s.last()));
        assert(forall|k: int| pos <= k < s.drop_last().len() ==> entry_less_spec(
            e,
            #[trigger] s.drop_last()[k],
        ));
        if pos > 0 {
            assert(s.drop_last()[pos - 1] == s[pos - 1]);
        }
        lemma_insert_sorted_at(s.drop_last(), e, pos);
        assert(insert_sorted(s, e) == s.drop_last().insert(pos, e).push(s.last()));
        assert(s.drop_last().insert(pos, e).push(s.last()) =~= s.insert(pos, e));
    }
}

/// The running state of the greedy scan: the selected entries, their
/// team assignments, the team currently being filled, and how full it is.
#[verifier::ext_equal]
pub ghost struct ScanState {
    pub selected: Seq<EntryView>,
    pub assigns: Seq<usize>,
    pub cur_team: int,
    pub fill: int,
}

/// The scan state before anything is selected.
pub open spec fn scan_init() -> ScanState {
    ScanState { selected: Seq::empty(), assigns: Seq::empty(), cur_team: 0, fill: 0 }
}

/// Advances past every team the running fill already completes,
/// zero-size teams included.
pub open spec fn scan_advance(st: ScanState, sizes: Seq<usize>) -> ScanState
    decreases sizes.len() - st.cur_team when 0 <= st.cur_team <= sizes.len()
{
    if st.cur_team < sizes.len() && st.fill == sizes[st.cur_team] {
        scan_advance(
            ScanState { cur_team: st.cur_team + 1, fill: 0, ..st },
            sizes,
        )
    } else {
        st
    }
}

/// Whether the scan takes the next entry: the format is not yet filled,
/// the entry carries players, they fit inside the team being filled, and
/// the entry is compatible with everything selected so far.
pub open spec fn scan_fits(
    st: ScanState,
    sizes: Seq<usize>,
    c: ConstraintsView,
    e: EntryView,
    now_ms: i64,
) -> bool {
    &&& st.cur_team < sizes.len()
    &&& e.player_ids.len() >= 1
    &&& e.player_ids.len() <= sizes[st.cur_team] - st.fill
    &&& forall|k: int| 0 <= k < st.selected.len() ==> can_match_spec(
        c,
        #[trigger] st.selected[k],
        e,
        now_ms,
    )
}

/// One step of the greedy scan over the next entry.
pub open spec fn scan_step(
    st: ScanState,
    sizes: Seq<usize>,
    c: ConstraintsView,
    e: EntryView,
    now_ms: i64,
) -> ScanState {
    if st.cur_team >= sizes.len() {
        st
    } else if scan_fits(st, sizes, c, e, now_ms) {
        scan_advance(
            ScanState {
                selected: st.selected.push(e),
                assigns: st.assigns.push(st.cur_team as usize),
                cur_team: st.cur_team,
                fill: st.fill + e.player_ids.len(),
            },
            sizes,
        )
    } else {
        st
    }
}

/// The greedy scan over the first `i` entries of the sorted snapshot.
pub open spec fn greedy_scan(
    entries: Seq<EntryView>,
    sizes: Seq<usize>,
    c: ConstraintsView,
    now_ms: i64,
    i: int,
) -> ScanState
    decreases i when i >= 0
{
    if i <= 0 {
        scan_advance(scan_init(), sizes)
    } else {
        scan_step(greedy_scan(entries, sizes, c, now_ms, i - 1), sizes, c, entries[i - 1], now_ms)
    }
}

/// Whether the scan has filled every team of the format.
pub open spec fn scan_complete(st: ScanState, sizes: Seq<usize>) -> bool {
    st.cur_team == sizes.len()
}

/// Once complete, the scan ignores every further entry.
proof fn lemma_scan_absorbs(
    entries: Seq<EntryView>,
    sizes: Seq<usize>,
    c: ConstraintsView,
    now_ms: i64,
    i: int,
    j: int,
)
    requires
        0 <= i <= j,
        scan_complete(greedy_scan(entries, sizes, c, now_ms, i), sizes),
    ensures
        greedy_scan(entries, sizes, c, now_ms, j) == greedy_scan(entries, sizes, c, now_ms, i),
    decreases j - i,
{
    if j > i {
        lemma_scan_absorbs(entries, sizes, c, now_ms, i, j - 1);
    }
}

/// Copies `entries` into a vector sorted by join time (ties by id, equal
/// keys in admission order): exactly the stable sort the greedy scan is
/// specified over, and exactly the input entries.
fn sort_entries(entries: &Vec<QueueEntry>) -> (r: Vec<QueueEntry>)
    ensures
        sorted_by_join(r.deep_view()),
        forall|k: int| 0 <= k < r.deep_view().len() ==> entries.deep_view().contains(
            r.deep_view()[k],
        ),
        r.deep_view().to_multiset() == entries.deep_view().to_multiset(),
        r.deep_view() == sort_by_join_spec(entries.deep_view()),
{
    let mut r: Vec<QueueEntry> = Vec::new();
    let mut i: usize = 0;
    proof {
        assert(entries.deep_view().take(0) =~= Seq::<EntryView>::empty());
        assert(r.deep_view() =~= Seq::<EntryView>::empty());
    }
    while i < entries.len()
        invariant
            i <= entries.len(),
            sorted_by_join(r.deep_view()),
            forall|k: int| 0 <= k < r.deep_view().len() ==> entries.deep_view().contains(
                r.deep_view()[k],
            ),
            r.deep_view().to_multiset() == entries.deep_view().take(i as int).to_multiset(),
            r.deep_view() == sort_by_join_spec(entries.deep_view().take(i as int)),
        decreases entries.len() - i,
    {
        let e = entries[i].clone();
        proof {
            assert(entries.deep_view()[i as int] == e@);
            assert(entries.deep_view().contains(e@));
        }
        let mut pos: usize = r.len();
        while pos > 0 && entry_less(&e, &r[pos - 1])
            invariant
                pos <= r.len(),
                forall|k: int| pos <= k < r.deep_view().len() ==> entry_less_spec(
                    e@,
                    #[trigger] r.deep_view()[k],
                ),
            decreases pos,
        {
            pos -= 1;
        }
        let ghost old_r = r.deep_view();
        r.insert(pos, e);
        proof {
            assert(r.deep_view() =~= old_r.insert(pos as int, e@));
            lemma_insert_sorted_at(old_r, e@, pos as int);
            assert(entries.deep_view().take(i + 1).drop_last() =~= entries.deep_view().take(
                i as int,
            ));
            assert(entries.deep_view().take(i + 1).last() == entries.deep_view()[i as int]);
            assert(r.deep_view() == sort_by_join_spec(entries.deep_view().take(i + 1)));
            vstd::seq_lib::to_multiset_insert(old_r, pos as int, e@);
            assert(entries.deep_view().take(i + 1).drop_last() =~= entries.deep_view().take(
                i as int,
            ));
            vstd::seq_lib::to_multiset_build(
                entries.deep_view().take(i as int),
                entries.deep_view()[i as int],
            );
            assert(entries.deep_view().take(i + 1) =~= entries.deep_view().take(i as int).push(
                entries.deep_view()[i as int],
            ));
            assert(r.deep_view().to_multiset() =~= entries.deep_view().take(i + 1).to_multiset());
            assert(r@.len() == old_r.len() + 1);
            assert(r.deep_view().len() == old_r.len() + 1);
            assert(forall|k: int| 0 <= k < pos ==> r.deep_view()[k] == old_r[k]);
            assert(r.deep_view()[pos as int] == e@);
            assert(forall|k: int|
                pos < k < r.deep_view().len() ==> r.deep_view()[k] == old_r[k - 1]);
            if pos > 0 {
                assert(entry_le(old_r[pos - 1], e@));
            }
            assert forall|k: int| 0 <= k < pos implies entry_le(old_r[k], e@) by {
                if k < pos - 1 {
                    assert(entry_le(old_r[k], old_r[pos - 1]));
                }
            }
            assert forall|a: int, b: int|
                0 <= a < b < r.deep_view().len() implies entry_le(
                r.deep_view()[a],
                r.deep_view()[b],
            ) by {
                let dv = r.deep_view();
                if b < pos {
                    assert(dv[a] == old_r[a] && dv[b] == old_r[b]);
                } else if b == pos {
                    assert(dv[a] == old_r[a] && dv[b] == e@);
                } else if a < pos {
                    assert(dv[a] == old_r[a] && dv[b] == old_r[b - 1]);
                    if a < b - 1 {
                        assert(entry_le(old_r[a], old_r[b - 1]));
                    }
                } else if a == pos {
                    assert(dv[a] == e@ && dv[b] == old_r[b - 1]);
                } else {
                    assert(dv[a] == old_r[a - 1] && dv[b] == old_r[b - 1]);
                }
            }
            assert(sorted_by_join(r.deep_view()));
            assert forall|k: int|
                0 <= k < r.deep_view().len() implies entries.deep_view().contains(
                r.deep_view()[k],
            ) by {
                if k < pos {
                    assert(r.deep_view()[k] == old_r[k]);
                } else if k == pos {
                    assert(r.deep_view()[k] == e@);
                } else {
                    assert(r.deep_view()[k] == old_r[k - 1]);
                }
            }
        }
        i += 1;
    }
    proof {
        assert(entries.deep_view().take(entries.deep_view().len() as int) =~= entries.deep_view());
    }
    r
}

/// Advancing changes no selection, never moves backwards, and keeps an
/// all-zero prefix sum at zero.
pub proof fn lemma_advance_keeps(st: ScanState, sizes: Seq<usize>)
    requires
        0 <= st.cur_team <= sizes.len(),
    ensures
        ({
            let r = scan_advance(st, sizes);
            &&& r.selected == st.selected
            &&& r.assigns == st.assigns
            &&& st.cur_team <= r.cur_team <= sizes.len()
            &&& (st.fill == 0 && sum_sizes(sizes.take(st.cur_team)) == 0 ==> r.fill == 0
                && sum_sizes(sizes.take(r.cur_team)) == 0)
        }),
    decreases sizes.len() - st.cur_team,
{
    if st.cur_team < sizes.len() && st.fill == sizes[st.cur_team] {
        let next = ScanState { cur_team: st.cur_team + 1, fill: 0, ..st };
        lemma_sum_take_step(sizes, st.cur_team);
        lemma_advance_keeps(next, sizes);
    }
}

/// Every entry the greedy scan selects is one of the first `i` scanned
/// entries and carries at least one participant; the scan never leaves
/// the team range; and an empty selection means the teams covered so far
/// were all empty.
pub proof fn lemma_scan_selected(
    entries: Seq<EntryView>,
    sizes: Seq<usize>,
    c: ConstraintsView,
    now_ms: i64,
    i: int,
)
    requires
        0 <= i <= entries.len(),
    ensures
        ({
            let st = greedy_scan(entries, sizes, c, now_ms, i);
            &&& 0 <= st.cur_team <= sizes.len()
            &&& forall|k: int|
                0 <= k < st.selected.len() ==> entries.contains(#[trigger] st.selected[k])
                    && st.selected[k].player_ids.len() >= 1
            &&& (st.selected.len() == 0 ==> st.fill == 0 && sum_sizes(sizes.take(st.cur_team))
                == 0)
        }),
    decreases i,
{
    if i <= 0 {
        assert(sum_sizes(sizes.take(0)) == 0);
        lemma_advance_keeps(scan_init(), sizes);
    } else {
        lemma_scan_selected(entries, sizes, c, now_ms, i - 1);
        let prev = greedy_scan(entries, sizes, c, now_ms, i - 1);
        if prev.cur_team < sizes.len() && scan_fits(prev, sizes, c, entries[i - 1], now_ms) {
            let mid = ScanState {
                selected: prev.selected.push(entries[i - 1]),
                assigns: prev.assigns.push(prev.cur_team as usize),
                cur_team: prev.cur_team,
                fill: prev.fill + entries[i - 1].player_ids.len(),
            };
            lemma_advance_keeps(mid, sizes);
            assert(entries.contains(entries[i - 1]));
        }
    }
}

/// A selection that fills a format with at least one seat is nonempty.
pub proof fn lemma_complete_scan_nonempty(
    entries: Seq<EntryView>,
    sizes: Seq<usize>,
    c: ConstraintsView,
    now_ms: i64,
    i: int,
)
    requires
        0 <= i <= entries.len(),
        scan_complete(greedy_scan(entries, sizes, c, now_ms, i), sizes),
        sum_sizes(sizes) > 0,
    ensures
        greedy_scan(entries, sizes, c, now_ms, i).selected.len() >= 1,
{
    lemma_scan_selected(entries, sizes, c, now_ms, i);
    let st = greedy_scan(entries, sizes, c, now_ms, i);
    if st.selected.len() == 0 {
        assert(sizes.take(sizes.len() as int) =~= sizes);
        assert(false);
    }
}

/// Inserting into a sorted run adds exactly the new entry to the run's
/// multiset.
proof fn lemma_insert_sorted_multiset(s: Seq<EntryView>, e: EntryView)
    ensures
        insert_sorted(s, e).to_multiset() == s.to_multiset().insert(e),
    decreases s.len(),
{
    broadcast use vstd::multiset::group_multiset_axioms;

    if s.len() == 0 {
        assert(insert_sorted(s, e) =~= s.push(e));
        vstd::seq_lib::to_multiset_build(s, e);
    } else if !entry_less_spec(e, s.last()) {
        vstd::seq_lib::to_multiset_build(s, e);
    } else {
        lemma_insert_sorted_multiset(s.drop_last(), e);
        vstd::seq_lib::to_multiset_build(insert_sorted(s.drop_last(), e), s.last());
        vstd::seq_lib::to_multiset_build(s.drop_last(), s.last());
        assert(s.drop_last().push(s.last()) =~= s);
        assert(insert_sorted(s, e).to_multiset() == insert_sorted(s.drop_last(), e).to_multiset()
            .insert(s.last()));
        assert(s.drop_last().to_multiset().insert(e).insert(s.last()) =~= s.drop_last()
            .to_multiset().insert(s.last()).insert(e));
        assert(s.to_multiset() == s.drop_last().to_multiset().insert(s.last()));
    }
}

/// The join-time sort is a permutation of its input.
pub proof fn lemma_sort_spec_multiset(s: Seq<EntryView>)
    ensures
        sort_by_join_spec(s).to_multiset() == s.to_multiset(),
    decreases s.len(),
{
    if s.len() > 0 {
        lemma_sort_spec_multiset(s.drop_last());
        lemma_insert_sorted_multiset(sort_by_join_spec(s.drop_last()), s.last());
        vstd::seq_lib::to_multiset_build(s.drop_last(), s.last());
        assert(s.drop_last().push(s.last()) =~= s);
        assert(sort_by_join_spec(s).to_multiset() == sort_by_join_spec(s.drop_last()).to_multiset()
            .insert(s.last()));
        assert(s.to_multiset() == s.drop_last().to_multiset().insert(s.last()));
    } else {
        assert(s =~= Seq::<EntryView>::empty());
        assert(sort_by_join_spec(s) =~= s);
    }
}

/// Two distinct positions of a permutation of a pairwise-disjoint,
/// nonempty-entry sequence never share a participant: a shared player
/// would point back to two input positions sharing one, or to one input
/// entry counted twice.
proof fn lemma_disjoint_permutation(input: Seq<EntryView>, sorted: Seq<EntryView>)
    requires
        match_entries_disjoint(input),
        entries_nonempty(input),
        sorted.to_multiset() == input.to_multiset(),
    ensures
        match_entries_disjoint(sorted),
        entries_nonempty(sorted),
{
    broadcast use vstd::multiset::group_multiset_axioms;
    broadcast use vstd::seq_lib::to_multiset_contains;

    assert forall|i: int| 0 <= i < sorted.len() implies (#[trigger] sorted[i]).player_ids.len()
        >= 1 by {
        assert(sorted.contains(sorted[i]));
        assert(input.to_multiset().contains(sorted[i]));
        assert(input.contains(sorted[i]));
        let j = choose|j: int| 0 <= j < input.len() && input[j] == sorted[i];
    }
    assert forall|i: int, j: int, p: u128|
        0 <= i < j < sorted.len() implies !(#[trigger] sorted[i].player_ids.contains(p)
        && #[trigger] sorted[j].player_ids.contains(p)) by {
        if sorted[i].player_ids.contains(p) && sorted[j].player_ids.contains(p) {
            if sorted[i] == sorted[j] {
                // The permutation counts this entry at least twice, so
                // the input holds it at two positions, and its first
                // participant sits in both: against pairwise
                // disjointness.
                let e = sorted[i];
                vstd::seq_lib::to_multiset_remove(sorted, i);
                let rest = sorted.remove(i);
                assert(rest[j - 1] == e);
                assert(rest.contains(e));
                assert(rest.to_multiset().count(e) >= 1);
                assert(sorted.to_multiset().count(e) >= 2);
                assert(input.to_multiset().count(e) >= 2);
                assert(input.contains(e));
                let a = choose|a: int| 0 <= a < input.len() && input[a] == e;
                vstd::seq_lib::to_multiset_remove(input, a);
                let irest = input.remove(a);
                assert(irest.to_multiset().count(e) >= 1);
                assert(irest.to_multiset().contains(e));
                assert(irest.contains(e));
                let b0 = choose|b0: int| 0 <= b0 < irest.len() && irest[b0] == e;
                let b = if b0 < a {
                    b0
                } else {
                    b0 + 1
                };
                assert(input[b] == e);
                assert(a != b);
                assert(e.player_ids.len() >= 1) by {
                    assert(input[a].player_ids.len() >= 1);
                }
                let q = e.player_ids[0];
                assert(input[a].player_ids.contains(q) && input[b].player_ids.contains(q));
                if a < b {
                    assert(!(input[a].player_ids.contains(q) && input[b].player_ids.contains(q)));
                } else {
                    assert(!(input[b].player_ids.contains(q) && input[a].player_ids.contains(q)));
                }
                assert(false);
            } else {
                assert(input.to_multiset().contains(sorted[i]));
                assert(input.to_multiset().contains(sorted[j]));
                assert(input.contains(sorted[i]) && input.contains(sorted[j]));
                let a = choose|a: int| 0 <= a < input.len() && input[a] == sorted[i];
                let b = choose|b: int| 0 <= b < input.len() && input[b] == sorted[j];
                assert(a != b);
                if a < b {
                    assert(!(input[a].player_ids.contains(p) && input[b].player_ids.contains(p)));
                } else {
                    assert(!(input[b].player_ids.contains(p) && input[a].player_ids.contains(p)));
                }
            }
        }
    }
}

/// The greedy matcher for one queue: its format and constraints.
pub struct GreedyMatcher {
    /// The match shape the queue plays.
    pub format: MatchFormat,
    /// The pairwise constraints of the queue.
    pub constraints: MatchConstraints,
}

impl GreedyMatcher {
    /// Builds a matcher for a format and constraints.
    pub fn new(format: MatchFormat, constraints: MatchConstraints) -> (m: GreedyMatcher)
        ensures
            m.format@ == format@,
            m.constraints@ == constraints@,
    {
        GreedyMatcher { format, constraints }
    }

    /// Attempts to form one match from the snapshot `entries` at `now_ms`.
    ///
    /// A returned match fills the format under the constraints at
    /// `now_ms` (its player count sums exactly to the format's total, its
    /// team assignment fills every team exactly without splitting an
    /// entry, and its entries are pairwise compatible), and every selected
    /// entry comes from the snapshot. When the snapshot itself carries no
    /// participant twice (as every well-formed queue guarantees), neither
    /// does the emitted match, making it valid outright. Returning
    /// nothing is the normal outcome when no such set exists along the
    /// greedy scan.
    pub fn find_match(&self, entries: &Vec<QueueEntry>, now_ms: i64) -> (r: Option<MatchResult>)
        requires
            self.format@.wf(),
        ensures
            match r {
                Some(m) => match_fills_format(self.format@, self.constraints@, m@, now_ms)
                    && forall|k: int|
                    0 <= k < m@.entries.len() ==> entries.deep_view().contains(m@.entries[k]),
                None => true,
            },
            match_entries_disjoint(entries.deep_view()) && entries_nonempty(entries.deep_view())
                ==> match r {
                Some(m) => valid_match(self.format@, self.constraints@, m@, now_ms),
                None => true,
            },
            (r is Some) <==> (self.format@.total_players > 0 && scan_complete(
                greedy_scan(
                    sort_by_join_spec(entries.deep_view()),
                    self.format@.team_sizes,
                    self.constraints@,
                    now_ms,
                    entries.deep_view().len() as int,
                ),
                self.format@.team_sizes,
            )),
            r matches Some(m) ==> m@.entries == greedy_scan(
                sort_by_join_spec(entries.deep_view()),
                self.format@.team_sizes,
                self.constraints@,
                now_ms,
                entries.deep_view().len() as int,
            ).selected && m@.team_assignments == greedy_scan(
                sort_by_join_spec(entries.deep_view()),
                self.format@.team_sizes,
                self.constraints@,
                now_ms,
                entries.deep_view().len() as int,
            ).assigns,
    {
        let nteams: usize = self.team_sizes_len();
        if self.format.total_players == 0 {
            return None;
        }
        let ghost hyp = match_entries_disjoint(entries.deep_view()) && entries_nonempty(
            entries.deep_view(),
        );
        let sorted = sort_entries(entries);
        proof {
            if hyp {
                lemma_disjoint_permutation(entries.deep_view(), sorted.deep_view());
            }
        }
        let ghost mut srcs: Seq<int> = Seq::empty();
        let mut selected: Vec<QueueEntry> = Vec::new();
        let mut assigns: Vec<usize> = Vec::new();
        let mut cur_team: usize = 0;
        let mut fill: usize = 0;
        let mut count: usize = 0;

        // Skip leading zero-size teams.
        while cur_team < nteams && self.team_sizes_at(cur_team) == 0
            invariant
                cur_team <= nteams,
                nteams == self.format@.team_sizes.len(),
                fill == 0,
                count == sum_sizes(self.format@.team_sizes.take(cur_team as int)),
                count == 0,
                forall|t: int| 0 <= t < cur_team ==> self.format@.team_sizes[t] == 0,
                scan_advance(scan_init(), self.format@.team_sizes) == scan_advance(
                    ScanState {
                        selected: Seq::empty(),
                        assigns: Seq::empty(),
                        cur_team: cur_team as int,
                        fill: 0,
                    },
                    self.format@.team_sizes,
                ),
            decreases nteams - cur_team,
        {
            proof {
                lemma_sum_take_step(self.format@.team_sizes, cur_team as int);
            }
            cur_team += 1;
        }

        let ghost fmt = self.format@;
        let ghost cns = self.constraints@;
        let mut i: usize = 0;
        while i < sorted.len() && cur_team < nteams
            invariant
                self.format@ == fmt,
                self.constraints@ == cns,
                fmt.wf(),
                nteams == fmt.team_sizes.len(),
                i <= sorted.len(),
                cur_team <= nteams,
                selected.deep_view().len() == assigns@.len(),
                cur_team < nteams ==> fill < fmt.team_sizes[cur_team as int],
                cur_team == nteams ==> fill == 0,
                count == sum_sizes(fmt.team_sizes.take(cur_team as int)) + fill,
                forall|t: int| 0 <= t < cur_team ==> team_fill(
                    selected.deep_view(),
                    assigns@,
                    t,
                ) == fmt.team_sizes[t],
                cur_team < nteams ==> team_fill(selected.deep_view(), assigns@, cur_team as int)
                    == fill,
                forall|t: int| cur_team < t ==> team_fill(selected.deep_view(), assigns@, t) == 0,
                forall|k: int| 0 <= k < assigns@.len() ==> assigns@[k] < nteams,
                forall|k: int| 0 <= k < assigns@.len() ==> assigns@[k] <= cur_team,
                forall|a: int, b: int| 0 <= a < b < selected.deep_view().len() ==> can_match_spec(
                    cns,
                    selected.deep_view()[a],
                    selected.deep_view()[b],
                    now_ms,
                ),
                forall|k: int| 0 <= k < selected.deep_view().len() ==> entries.deep_view()
                    .contains(selected.deep_view()[k]),
                forall|k: int| 0 <= k < sorted.deep_view().len() ==> entries.deep_view()
                    .contains(sorted.deep_view()[k]),
                sum_players(selected.deep_view()) == count,
                hyp == (match_entries_disjoint(entries.deep_view()) && entries_nonempty(
                    entries.deep_view(),
                )),
                hyp ==> match_entries_disjoint(sorted.deep_view()),
                srcs.len() == selected.deep_view().len(),
                forall|k: int| 0 <= k < srcs.len() ==> 0 <= #[trigger] srcs[k] < i
                    && selected.deep_view()[k] == sorted.deep_view()[srcs[k]],
                forall|k1: int, k2: int| 0 <= k1 < k2 < srcs.len() ==> #[trigger] srcs[k1]
                    < #[trigger] srcs[k2],
                hyp ==> match_entries_disjoint(selected.deep_view()),
                greedy_scan(sorted.deep_view(), fmt.team_sizes, cns, now_ms, i as int)
                    == (ScanState {
                    selected: selected.deep_view(),
                    assigns: assigns@,
                    cur_team: cur_team as int,
                    fill: fill as int,
                }),
            decreases sorted.len() - i,
        {
            let ghost pre = ScanState {
                selected: selected.deep_view(),
                assigns: assigns@,
                cur_team: cur_team as int,
                fill: fill as int,
            };
            let candidate = &sorted[i];
            let pc: usize = candidate.player_count();
            let room: usize = self.team_sizes_at(cur_team) - fill;
            if pc > 0 && pc <= room {
                let mut ok = true;
                let mut j: usize = 0;
                while j < selected.len()
                    invariant
                        j <= selected.len(),
                        self.constraints@ == cns,
                        ok ==> forall|a: int| 0 <= a < j ==> can_match_spec(
                            cns,
                            selected.deep_view()[a],
                            candidate@,
                            now_ms,
                        ),
                        !ok ==> exists|a: int| 0 <= a < j && !can_match_spec(
                            cns,
                            #[trigger] selected.deep_view()[a],
                            candidate@,
                            now_ms,
                        ),
                    decreases selected.len() - j,
                {
                    if !self.constraints.can_match(&selected[j], candidate, now_ms) {
                        proof {
                            assert(!can_match_spec(
                                cns,
                                selected.deep_view()[j as int],
                                candidate@,
                                now_ms,
                            ));
                        }
                        ok = false;
                    }
                    j += 1;
                }
                if ok {
                    let ghost prev_sel = selected.deep_view();
                    let ghost prev_asg = assigns@;
                    proof {
                        assert(candidate@ == sorted.deep_view()[i as int]);
                        assert(entries.deep_view().contains(sorted.deep_view()[i as int]));
                    }
                    selected.push(candidate.clone());
                    assigns.push(cur_team);
                    proof {
                        assert(selected.deep_view() =~= prev_sel.push(candidate@));
                        assert(assigns@ =~= prev_asg.push(cur_team));
                        lemma_fill_push(prev_sel, prev_asg, candidate@, cur_team);
                        lemma_players_push(prev_sel, candidate@);
                        srcs = srcs.push(i as int);
                        if hyp {
                            assert forall|a: int, b: int, p: u128|
                                0 <= a < b < selected.deep_view().len() implies !(
                            #[trigger] selected.deep_view()[a].player_ids.contains(p)
                                && #[trigger] selected.deep_view()[b].player_ids.contains(p)) by {
                                if b == selected.deep_view().len() - 1 {
                                    assert(selected.deep_view()[a] == sorted.deep_view()[srcs[a]]);
                                    assert(selected.deep_view()[b] == sorted.deep_view()[
                                        i as int
                                    ]);
                                    assert(srcs[a] < i);
                                } else {
                                    assert(selected.deep_view()[a] == prev_sel[a]
                                        && selected.deep_view()[b] == prev_sel[b]);
                                }
                            }
                        }
                    }
                    proof {
                        lemma_sum_take_le(fmt.team_sizes, cur_team as int + 1);
                        lemma_sum_take_step(fmt.team_sizes, cur_team as int);
                        assert(scan_fits(pre, fmt.team_sizes, cns, candidate@, now_ms));
                    }
                    fill += pc;
                    count += pc;
                    let ghost pushed = ScanState {
                        selected: selected.deep_view(),
                        assigns: assigns@,
                        cur_team: cur_team as int,
                        fill: fill as int,
                    };
                    // Advance past every team the running fill now
                    // completes, including zero-size ones.
                    while cur_team < nteams && fill == self.team_sizes_at(cur_team)
                        invariant
                            scan_advance(pushed, fmt.team_sizes) == scan_advance(
                                ScanState {
                                    selected: selected.deep_view(),
                                    assigns: assigns@,
                                    cur_team: cur_team as int,
                                    fill: fill as int,
                                },
                                fmt.team_sizes,
                            ),
                            selected.deep_view().len() == assigns@.len(),
                            nteams == fmt.team_sizes.len(),
                            fmt.wf(),
                            self.format@ == fmt,
                            cur_team <= nteams,
                            cur_team == nteams ==> fill == 0,
                            count == sum_sizes(fmt.team_sizes.take(cur_team as int)) + fill,
                            forall|t: int| 0 <= t < cur_team ==> team_fill(
                                selected.deep_view(),
                                assigns@,
                                t,
                            ) == fmt.team_sizes[t],
                            cur_team < nteams ==> team_fill(
                                selected.deep_view(),
                                assigns@,
                                cur_team as int,
                            ) == fill,
                            forall|t: int| cur_team < t ==> team_fill(
                                selected.deep_view(),
                                assigns@,
                                t,
                            ) == 0,
                            forall|k: int| 0 <= k < assigns@.len() ==> assigns@[k] <= cur_team,
                            forall|k: int| 0 <= k < assigns@.len() ==> assigns@[k] < nteams,
                        decreases nteams - cur_team,
                    {
                        let ghost adv_pre = ScanState {
                            selected: selected.deep_view(),
                            assigns: assigns@,
                            cur_team: cur_team as int,
                            fill: fill as int,
                        };
                        proof {
                            lemma_sum_take_step(fmt.team_sizes, cur_team as int);
                        }
                        cur_team += 1;
                        fill = 0;
                        proof {
                            if cur_team < nteams {
                                lemma_fill_beyond(selected.deep_view(), assigns@, cur_team as int);
                            }
                            assert(scan_advance(adv_pre, fmt.team_sizes) == scan_advance(
                                ScanState {
                                    selected: selected.deep_view(),
                                    assigns: assigns@,
                                    cur_team: cur_team as int,
                                    fill: fill as int,
                                },
                                fmt.team_sizes,
                            ));
                        }
                    }
                    proof {
                        assert(candidate@ == sorted.deep_view()[i as int]);
                        assert(greedy_scan(sorted.deep_view(), fmt.team_sizes, cns, now_ms, i + 1)
                            == scan_step(pre, fmt.team_sizes, cns, candidate@, now_ms));
                        assert(scan_step(pre, fmt.team_sizes, cns, candidate@, now_ms)
                            == scan_advance(pushed, fmt.team_sizes));
                        assert(greedy_scan(sorted.deep_view(), fmt.team_sizes, cns, now_ms, i + 1)
                            == (ScanState {
                            selected: selected.deep_view(),
                            assigns: assigns@,
                            cur_team: cur_team as int,
                            fill: fill as int,
                        }));
                    }
                } else {
                    proof {
                        assert(candidate@ == sorted.deep_view()[i as int]);
                        assert(!scan_fits(pre, fmt.team_sizes, cns, candidate@, now_ms)) by {
                            let a = choose|a: int|
                                0 <= a < selected.deep_view().len() && !can_match_spec(
                                    cns,
                                    #[trigger] selected.deep_view()[a],
                                    candidate@,
                                    now_ms,
                                );
                            assert(pre.selected[a] == selected.deep_view()[a]);
                        }
                        assert(greedy_scan(sorted.deep_view(), fmt.team_sizes, cns, now_ms, i + 1)
                            == pre);
                    }
                }
            } else {
                proof {
                    assert(candidate@ == sorted.deep_view()[i as int]);
                    assert(!scan_fits(pre, fmt.team_sizes, cns, candidate@, now_ms));
                    assert(greedy_scan(sorted.deep_view(), fmt.team_sizes, cns, now_ms, i + 1)
                        == pre);
                }
            }
            i += 1;
        }

        proof {
            vstd::seq_lib::to_multiset_len(sorted.deep_view());
            vstd::seq_lib::to_multiset_len(entries.deep_view());
            assert(sorted.deep_view().len() == entries.deep_view().len());
            if cur_team == nteams {
                lemma_scan_absorbs(
                    sorted.deep_view(),
                    fmt.team_sizes,
                    cns,
                    now_ms,
                    i as int,
                    sorted.deep_view().len() as int,
                );
            }
        }
        if cur_team == nteams {
            proof {
                assert(fmt.team_sizes.take(nteams as int) =~= fmt.team_sizes);
                assert(count == fmt.total_players);
                if selected.deep_view().len() == 0 {
                    assert(sum_players(selected.deep_view()) == 0);
                }
            }
            let m = MatchResult {
                match_id: fresh_id(),
                entries: selected,
                team_assignments: assigns,
            };
            Some(m)
        } else {
            None
        }
    }

    /// The number of teams of the matcher's format.
    fn team_sizes_len(&self) -> (n: usize)
        ensures
            n == self.format@.team_sizes.len(),
    {
        self.format.team_sizes.len()
    }

    /// The size of team `t` of the matcher's format.
    fn team_sizes_at(&self, t: usize) -> (s: usize)
        requires
            t < self.format@.team_sizes.len(),
        ensures
            s == self.format@.team_sizes[t as int],
    {
        self.format.team_sizes[t]
    }
}

/// Stepping the prefix sum of team sizes by one team.
pub proof fn lemma_sum_take_step(sizes: Seq<usize>, k: int)
    requires
        0 <= k < sizes.len(),
    ensures
        sum_sizes(sizes.take(k + 1)) == sum_sizes(sizes.take(k)) + sizes[k],
{
    assert(sizes.take(k + 1).drop_last() =~= sizes.take(k));
    assert(sizes.take(k + 1).last() == sizes[k]);
}

/// Pushing one assigned entry adds its players to exactly its team.
proof fn lemma_fill_push(entries: Seq<EntryView>, assigns: Seq<usize>, e: EntryView, team: usize)
    requires
        entries.len() == assigns.len(),
    ensures
        forall|t: int| team_fill(entries.push(e), assigns.push(team), t) == team_fill(
            entries,
            assigns,
            t,
        ) + if team == t { e.player_ids.len() as int } else { 0 },
{
    assert forall|t: int|
        team_fill(entries.push(e), assigns.push(team), t) == team_fill(entries, assigns, t) + if
            team == t { e.player_ids.len() as int } else { 0 } by {
        assert(entries.push(e).drop_last() =~= entries);
        assert(assigns.push(team).drop_last() =~= assigns);
    }
}

/// Pushing one entry adds its players to the total.
proof fn lemma_players_push(entries: Seq<EntryView>, e: EntryView)
    ensures
        sum_players(entries.push(e)) == sum_players(entries) + e.player_ids.len(),
{
    assert(entries.push(e).drop_last() =~= entries);
}

/// Team sizes are non-negative, so a prefix sum never exceeds the whole.
pub proof fn lemma_sum_take_le(sizes: Seq<usize>, k: int)
    requires
        0 <= k <= sizes.len(),
    ensures
        sum_sizes(sizes.take(k)) <= sum_sizes(sizes),
        0 <= sum_sizes(sizes.take(k)),
    decreases sizes.len() - k,
{
    lemma_sum_nonneg(sizes.take(k));
    if k < sizes.len() {
        lemma_sum_take_step(sizes, k);
        lemma_sum_take_le(sizes, k + 1);
    } else {
        assert(sizes.take(k) =~= sizes);
    }
}

/// A sum of sizes is never negative.
pub proof fn lemma_sum_nonneg(sizes: Seq<usize>)
    ensures
        0 <= sum_sizes(sizes),
    decreases sizes.len(),
{
    if sizes.len() > 0 {
        lemma_sum_nonneg(sizes.drop_last());
    }
}

/// A team that every assignment stays below holds no players.
proof fn lemma_fill_beyond(entries: Seq<EntryView>, assigns: Seq<usize>, t: int)
    requires
        entries.len() == assigns.len(),
        forall|k: int| 0 <= k < assigns.len() ==> assigns[k] < t,
    ensures
        team_fill(entries, assigns, t) == 0,
    decreases entries.len(),
{
    if entries.len() > 0 {
        lemma_fill_beyond(entries.drop_last(), assigns.drop_last(), t);
    }
}

} // verus!

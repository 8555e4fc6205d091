//! The queue manager: per-queue admission, cancellation, snapshotting and
//! match finding. The manager owns the active entries; at every
//! observable moment every participant id appears in at most one entry of
//! a queue, and that invariant is part of every contract here.

use vstd::prelude::*;

verus! {

use crate::constraints::{ConstraintsView, MatchConstraints};
use crate::entry::{contains_id, EntryMetadata, EntryView, QueueEntry};
use crate::error::MatchForgeError;
use crate::matcher::{FormatView, GreedyMatcher, MatchFormat, MatchResult, MatchView, sum_sizes, valid_match};
use crate::persistence::PersistenceAdapter;
use crate::rating::Rating;

/// The mathematical content of a `QueueConfig`.
#[verifier::ext_equal]
pub ghost struct ConfigView {
    pub name: Seq<char>,
    pub format: FormatView,
    pub constraints: ConstraintsView,
}

/// The registration record of one queue: its unique name, the match
/// shape it plays, and its constraints. Immutable once registered.
#[derive(Debug)]
pub struct QueueConfig {
    /// The unique queue name.
    pub name: String,
    /// The match shape the queue fills.
    pub format: MatchFormat,
    /// The pairwise constraints of the queue.
    pub constraints: MatchConstraints,
}

impl View for QueueConfig {
    type V = ConfigView;

    open spec fn view(&self) -> ConfigView {
        ConfigView { name: self.name@, format: self.format@, constraints: self.constraints@ }
    }
}

impl Clone for QueueConfig {
    /// A clone carries exactly the same registration.
    fn clone(&self) -> (c: QueueConfig)
        ensures
            c@ == self@,
    {
        let c = QueueConfig {
            name: self.name.clone(),
            format: self.format.clone(),
            constraints: self.constraints.clone(),
        };
        proof {
            assert(c@ =~= self@);
        }
        c
    }
}

/// The mathematical content of one managed queue: its registration and
/// its active entries in admission order.
#[verifier::ext_equal]
pub ghost struct QueueView {
    pub config: ConfigView,
    pub entries: Seq<EntryView>,
}

/// One managed queue: its registration and its active entries.
struct QueueRecord {
    config: QueueConfig,
    entries: Vec<QueueEntry>,
}

impl View for QueueRecord {
    type V = QueueView;

    closed spec fn view(&self) -> QueueView {
        QueueView { config: self.config@, entries: self.entries.deep_view() }
    }
}

impl DeepView for QueueRecord {
    type V = QueueView;

    closed spec fn deep_view(&self) -> QueueView {
        self@
    }
}

/// No participant appears in two entries of the sequence.
pub open spec fn entries_disjoint(entries: Seq<EntryView>) -> bool {
    crate::matcher::match_entries_disjoint(entries)
}

/// The per-queue entry invariant: every entry names this queue, carries
/// at least one participant and no duplicated participant, and no
/// participant appears in two entries.
pub open spec fn entries_wf(entries: Seq<EntryView>, queue_name: Seq<char>) -> bool {
    &&& forall|i: int| 0 <= i < entries.len() ==> (#[trigger] entries[i]).queue_name == queue_name
    &&& crate::matcher::entries_nonempty(entries)
    &&& forall|i: int| 0 <= i < entries.len() ==> (#[trigger] entries[i]).player_ids.no_duplicates()
    &&& entries_disjoint(entries)
}

/// One well-formed queue: a well-formed format and well-formed entries.
pub open spec fn queue_wf(q: QueueView) -> bool {
    &&& q.config.format.wf()
    &&& entries_wf(q.entries, q.config.name)
}

/// The manager invariant: queue names are unique and every queue is well
/// formed. In particular, at every observable moment every participant
/// id appears in at most one entry of a queue.
pub open spec fn manager_wf(queues: Seq<QueueView>) -> bool {
    &&& forall|i: int, j: int| 0 <= i < j < queues.len() ==> (#[trigger] queues[i]).config.name
        != (#[trigger] queues[j]).config.name
    &&& forall|i: int| 0 <= i < queues.len() ==> queue_wf(#[trigger] queues[i])
}

/// The index of the queue named `name`, or -1 when none is registered.
pub open spec fn queue_index(queues: Seq<QueueView>, name: Seq<char>) -> int
    decreases queues.len(),
{
    if queues.len() == 0 {
        -1
    } else if queues[0].config.name == name {
        0
    } else {
        let rest = queue_index(queues.drop_first(), name);
        if rest == -1 {
            -1
        } else {
            rest + 1
        }
    }
}

/// Whether a queue named `name` is registered.
pub open spec fn has_queue(queues: Seq<QueueView>, name: Seq<char>) -> bool {
    queue_index(queues, name) >= 0
}

/// `queue_index` points at the queue it names.
pub proof fn lemma_queue_index_spec(queues: Seq<QueueView>, name: Seq<char>)
    ensures
        has_queue(queues, name) ==> {
            let i = queue_index(queues, name);
            &&& 0 <= i < queues.len()
            &&& queues[i].config.name == name
        },
        !has_queue(queues, name) ==> forall|i: int| 0 <= i < queues.len()
            ==> (#[trigger] queues[i]).config.name != name,
    decreases queues.len(),
{
    if queues.len() > 0 {
        lemma_queue_index_spec(queues.drop_first(), name);
        assert(forall|i: int| 0 <= i < queues.drop_first().len()
            ==> #[trigger] queues.drop_first()[i] == queues[i + 1]);
        if !has_queue(queues, name) {
            assert forall|i: int| 0 <= i < queues.len() implies (#[trigger] queues[i]).config.name
                != name by {
                if i > 0 {
                    assert(queues.drop_first()[i - 1] == queues[i]);
                }
            }
        }
    }
}

/// A forward scan that finds `name` at `i` with no earlier hit agrees
/// with `queue_index`.
proof fn lemma_queue_index_found(queues: Seq<QueueView>, name: Seq<char>, i: int)
    requires
        0 <= i < queues.len(),
        queues[i].config.name == name,
        forall|j: int| 0 <= j < i ==> (#[trigger] queues[j]).config.name != name,
    ensures
        queue_index(queues, name) == i,
    decreases i,
{
    if i > 0 {
        lemma_queue_index_found(queues.drop_first(), name, i - 1);
        assert(forall|k: int| 0 <= k < queues.drop_first().len()
            ==> #[trigger] queues.drop_first()[k] == queues[k + 1]);
    }
}

/// A scan that finds no hit agrees with `queue_index`.
proof fn lemma_queue_index_missing(queues: Seq<QueueView>, name: Seq<char>)
    requires
        forall|j: int| 0 <= j < queues.len() ==> (#[trigger] queues[j]).config.name != name,
    ensures
        queue_index(queues, name) == -1,
    decreases queues.len(),
{
    if queues.len() > 0 {
        assert(forall|k: int| 0 <= k < queues.drop_first().len()
            ==> #[trigger] queues.drop_first()[k] == queues[k + 1]);
        lemma_queue_index_missing(queues.drop_first(), name);
    }
}

/// Whether some entry of the sequence carries the participant.
pub open spec fn entries_have_player(entries: Seq<EntryView>, player_id: u128) -> bool {
    exists|i: int| 0 <= i < entries.len() && (#[trigger] entries[i]).player_ids.contains(player_id)
}

/// Manages the registered queues and their active entries. Exclusive
/// owner of the entries; persistence is handed in per call and mirrors
/// the admissions.
pub struct QueueManager {
    queues: Vec<QueueRecord>,
}

impl View for QueueManager {
    type V = Seq<QueueView>;

    closed spec fn view(&self) -> Seq<QueueView> {
        self.queues.deep_view()
    }
}

impl QueueManager {
    /// A manager with no queues registered.
    pub fn new() -> (m: QueueManager)
        ensures
            m@ =~= Seq::<QueueView>::empty(),
            manager_wf(m@),
    {
        let m = QueueManager { queues: Vec::new() };
        proof {
            assert(m@ =~= Seq::<QueueView>::empty());
        }
        m
    }

    /// The index of the queue named `name`, if one is registered.
    fn find_queue(&self, name: &String) -> (r: Option<usize>)
        ensures
            match r {
                Some(i) => i < self@.len() && self@[i as int].config.name == name@
                    && queue_index(self@, name@) == i,
                None => !has_queue(self@, name@),
            },
    {
        let mut i: usize = 0;
        while i < self.queues.len()
            invariant
                i <= self.queues@.len(),
                self@.len() == self.queues@.len(),
                forall|j: int| 0 <= j < i ==> (#[trigger] self@[j]).config.name != name@,
            decreases self.queues@.len() - i,
        {
            if self.queues[i].config.name == *name {
                proof {
                    lemma_queue_index_found(self@, name@, i as int);
                }
                return Some(i);
            }
            i += 1;
        }
        proof {
            lemma_queue_index_missing(self@, name@);
        }
        None
    }

    /// Registers a new queue. Fails when the name is already registered
    /// or when the format's player total does not add up to its team
    /// sizes; on failure nothing changes.
    pub fn register_queue(&mut self, config: QueueConfig) -> (r: Result<(), MatchForgeError>)
        requires
            manager_wf(old(self)@),
        ensures
            manager_wf(final(self)@),
            match r {
                Ok(()) => !has_queue(old(self)@, config@.name) && config@.format.wf() && final(self)@ =~= old(self)@.push(
                    QueueView { config: config@, entries: Seq::empty() },
                ),
                Err(e) => final(self)@ == old(self)@ && (has_queue(old(self)@, config@.name)
                    || !config@.format.wf()) && e is InvalidConfiguration,
            },
    {
        match self.find_queue(&config.name) {
            Some(_) => Err(MatchForgeError::InvalidConfiguration(
                "a queue with this name is already registered".to_string(),
            )),
            None => {
                let mut total: usize = 0;
                let mut i: usize = 0;
                let sizes_len: usize = config.format.team_sizes.len();
                while i < sizes_len
                    invariant
                        self@ == old(self)@,
                        manager_wf(self@),
                        !has_queue(self@, config@.name),
                        i <= sizes_len,
                        sizes_len == config.format@.team_sizes.len(),
                        total == sum_sizes(config.format@.team_sizes.take(i as int)),
                        total <= usize::MAX,
                    decreases sizes_len - i,
                {
                    proof {
                        crate::matcher::lemma_sum_take_step(config.format@.team_sizes, i as int);
                    }
                    let next: usize = config.format.team_sizes[i];
                    if next > usize::MAX - total {
                        proof {
                            crate::matcher::lemma_sum_take_le(
                                config.format@.team_sizes,
                                i as int + 1,
                            );
                        }
                        return Err(MatchForgeError::InvalidConfiguration(
                            "the format's team sizes overflow the machine range".to_string(),
                        ));
                    }
                    total += next;
                    i += 1;
                }
                proof {
                    assert(config.format@.team_sizes.take(sizes_len as int)
                        =~= config.format@.team_sizes);
                }
                if total != config.format.total_players {
                    return Err(MatchForgeError::InvalidConfiguration(
                        "the format's player total is not the sum of its team sizes".to_string(),
                    ));
                }
                let ghost before = self@;
                let fresh: Vec<QueueEntry> = Vec::new();
                let rec = QueueRecord { config, entries: fresh };
                let ghost rv = rec@;
                proof {
                    assert(rv.entries =~= Seq::<EntryView>::empty());
                }
                self.queues.push(rec);
                proof {
                    assert(self@ =~= before.push(rv));
                    lemma_queue_index_spec(before, rv.config.name);
                    assert(manager_wf(self@)) by {
                        assert(forall|k: int| 0 <= k < before.len() ==> #[trigger] self@[k]
                            == before[k]);
                        assert(entries_wf(Seq::<EntryView>::empty(), rv.config.name));
                        assert(queue_wf(self@.last()));
                    }
                    assert(self@ =~= before.push(
                        QueueView { config: rv.config, entries: Seq::empty() },
                    ));
                }
                Ok(())
            },
        }
    }

    /// The number of entries waiting in the queue, or zero when no such
    /// queue is registered.
    pub fn get_queue_size(&self, queue_name: &String) -> (r: Result<usize, MatchForgeError>)
        ensures
            r matches Ok(n) && n == if has_queue(self@, queue_name@) {
                self@[queue_index(self@, queue_name@)].entries.len()
            } else {
                0
            },
    {
        match self.find_queue(queue_name) {
            Some(i) => Ok(self.queues[i].entries.len()),
            None => Ok(0),
        }
    }

    /// Admits one solo player into the queue at `now_ms`, mirroring the
    /// admission into persistence first. Fails when the queue is missing,
    /// when the player already sits in an entry of the queue, or when
    /// persistence refuses; on failure the manager is unchanged.
    pub fn join_queue_solo<P: PersistenceAdapter>(
        &mut self,
        persistence: &mut P,
        queue_name: String,
        player_id: u128,
        rating: Rating,
        metadata: EntryMetadata,
        now_ms: i64,
    ) -> (r: Result<QueueEntry, MatchForgeError>)
        requires
            manager_wf(old(self)@),
        ensures
            manager_wf(final(self)@),
            match r {
                Ok(entry) => {
                    let i = queue_index(old(self)@, queue_name@);
                    &&& has_queue(old(self)@, queue_name@)
                    &&& !entries_have_player(old(self)@[i].entries, player_id)
                    &&& entry@.queue_name == queue_name@
                    &&& entry@.player_ids =~= seq![player_id]
                    &&& entry@.party_id is None
                    &&& entry@.average_rating == rating
                    &&& entry@.joined_at == now_ms
                    &&& entry@.metadata == metadata@
                    &&& final(self)@ =~= old(self)@.update(
                        i,
                        QueueView {
                            config: old(self)@[i].config,
                            entries: old(self)@[i].entries.push(entry@),
                        },
                    )
                    &&& final(persistence).state() == (crate::persistence::StoreView {
                        entries: old(persistence).state().entries.push(entry@),
                        ..old(persistence).state()
                    })
                },
                Err(e) => {
                    &&& final(self)@ == old(self)@
                    &&& (!has_queue(old(self)@, queue_name@) ==> e is QueueNotFound)
                },
            },
            !has_queue(old(self)@, queue_name@) ==> (r matches Err(
                MatchForgeError::QueueNotFound(n),
            ) && n@ == queue_name@) && final(persistence).state() == old(persistence).state(),
            has_queue(old(self)@, queue_name@) && entries_have_player(
                old(self)@[queue_index(old(self)@, queue_name@)].entries,
                player_id,
            ) ==> (r matches Err(MatchForgeError::AlreadyInQueue(p)) && p == player_id)
                && final(persistence).state() == old(persistence).state(),
    {
        let i = match self.find_queue(&queue_name) {
            Some(i) => i,
            None => {
                return Err(MatchForgeError::QueueNotFound(queue_name));
            },
        };
        if self.queue_has_player(i, player_id) {
            return Err(MatchForgeError::AlreadyInQueue(player_id));
        }
        let entry = QueueEntry::new_solo(queue_name, player_id, rating, metadata, now_ms);
        match persistence.save_queue_entry(&entry) {
            Ok(()) => {},
            Err(e) => {
                return Err(e);
            },
        }
        let returned = entry.clone();
        proof {
            assert forall|p: u128| entry@.player_ids.contains(p) implies !entries_have_player(
                old(self)@[i as int].entries,
                p,
            ) by {
                assert(entry@.player_ids[0] == player_id);
            }
        }
        self.push_entry(i, entry);
        Ok(returned)
    }

    /// Admits a pre-formed party into the queue at `now_ms` with its
    /// derived rating, mirroring the admission into persistence first.
    /// Fails when the queue is missing, when the member list is empty or
    /// repeats a member, when any member already sits in an entry of the
    /// queue, or when persistence refuses; on failure the manager is
    /// unchanged.
    pub fn join_queue_party<P: PersistenceAdapter>(
        &mut self,
        persistence: &mut P,
        queue_name: String,
        party_id: u128,
        player_ids: Vec<u128>,
        average_rating: Rating,
        metadata: EntryMetadata,
        now_ms: i64,
    ) -> (r: Result<QueueEntry, MatchForgeError>)
        requires
            manager_wf(old(self)@),
        ensures
            manager_wf(final(self)@),
            match r {
                Ok(entry) => {
                    let i = queue_index(old(self)@, queue_name@);
                    &&& has_queue(old(self)@, queue_name@)
                    &&& player_ids@.len() >= 1
                    &&& player_ids@.no_duplicates()
                    &&& forall|p: u128| player_ids@.contains(p) ==> !entries_have_player(
                        old(self)@[i].entries,
                        p,
                    )
                    &&& entry@.queue_name == queue_name@
                    &&& entry@.player_ids == player_ids@
                    &&& entry@.party_id == Some(party_id)
                    &&& entry@.average_rating == average_rating
                    &&& entry@.joined_at == now_ms
                    &&& entry@.metadata == metadata@
                    &&& final(self)@ =~= old(self)@.update(
                        i,
                        QueueView {
                            config: old(self)@[i].config,
                            entries: old(self)@[i].entries.push(entry@),
                        },
                    )
                    &&& final(persistence).state() == (crate::persistence::StoreView {
                        entries: old(persistence).state().entries.push(entry@),
                        ..old(persistence).state()
                    })
                },
                Err(e) => {
                    &&& final(self)@ == old(self)@
                    &&& (!has_queue(old(self)@, queue_name@) ==> e is QueueNotFound)
                },
            },
            !has_queue(old(self)@, queue_name@) ==> (r matches Err(
                MatchForgeError::QueueNotFound(n),
            ) && n@ == queue_name@) && final(persistence).state() == old(persistence).state(),
            has_queue(old(self)@, queue_name@) && player_ids@.len() == 0 ==> (r matches Err(
                MatchForgeError::ConstraintsNotSatisfied(_),
            )) && final(persistence).state() == old(persistence).state(),
            has_queue(old(self)@, queue_name@) && player_ids@.len() > 0 && (
            !player_ids@.no_duplicates() || exists|p: u128|
                #[trigger] player_ids@.contains(p) && entries_have_player(
                    old(self)@[queue_index(old(self)@, queue_name@)].entries,
                    p,
                )) ==> (r matches Err(MatchForgeError::AlreadyInQueue(_)))
                && final(persistence).state() == old(persistence).state(),
            // A party no team of the format can hold is rejected at
            // admission: the matcher never splits an entry across teams,
            // so such an entry could never be matched.
            r is Ok ==> exists|t: int|
                0 <= t < old(self)@[queue_index(old(self)@, queue_name@)].config.format.team_sizes
                    .len() && (#[trigger] old(self)@[queue_index(
                    old(self)@,
                    queue_name@,
                )].config.format.team_sizes[t]) >= player_ids@.len(),
            has_queue(old(self)@, queue_name@) && player_ids@.len() > 0
                && player_ids@.no_duplicates() && (forall|p: u128|
                player_ids@.contains(p) ==> !entries_have_player(
                    old(self)@[queue_index(old(self)@, queue_name@)].entries,
                    p,
                )) && (forall|t: int|
                0 <= t < old(self)@[queue_index(old(self)@, queue_name@)].config.format.team_sizes
                    .len() ==> (#[trigger] old(self)@[queue_index(
                    old(self)@,
                    queue_name@,
                )].config.format.team_sizes[t]) < player_ids@.len()) ==> (r matches Err(
                MatchForgeError::ConstraintsNotSatisfied(_),
            )) && final(persistence).state() == old(persistence).state(),
    {
        let i = match self.find_queue(&queue_name) {
            Some(i) => i,
            None => {
                return Err(MatchForgeError::QueueNotFound(queue_name));
            },
        };
        if player_ids.len() == 0 {
            return Err(MatchForgeError::ConstraintsNotSatisfied(
                "a party entry needs at least one participant".to_string(),
            ));
        }
        let mut k: usize = 0;
        while k < player_ids.len()
            invariant
                k <= player_ids@.len(),
                i < self@.len(),
                self@ == old(self)@,
                manager_wf(self@),
                has_queue(self@, queue_name@),
                queue_index(self@, queue_name@) == i as int,
                forall|j: int| 0 <= j < k ==> !entries_have_player(
                    self@[i as int].entries,
                    #[trigger] player_ids@[j],
                ),
                forall|a: int, b: int| 0 <= a < b < k ==> player_ids@[a] != player_ids@[b],
            decreases player_ids@.len() - k,
        {
            let candidate = player_ids[k];
            let mut j: usize = 0;
            while j < k
                invariant
                    self@ == old(self)@,
                    manager_wf(self@),
                    has_queue(self@, queue_name@),
                    queue_index(self@, queue_name@) == i as int,
                    i < self@.len(),
                    j <= k,
                    k < player_ids@.len(),
                    candidate == player_ids@[k as int],
                    forall|a: int| 0 <= a < j ==> player_ids@[a] != candidate,
                decreases k - j,
            {
                if player_ids[j] == candidate {
                    return Err(MatchForgeError::AlreadyInQueue(candidate));
                }
                j += 1;
            }
            if self.queue_has_player(i, candidate) {
                proof {
                    assert(player_ids@.contains(player_ids@[k as int]));
                }
                return Err(MatchForgeError::AlreadyInQueue(candidate));
            }
            k += 1;
        }
        let sizes = &self.queues[i].config.format.team_sizes;
        let mut fits: bool = false;
        let mut t: usize = 0;
        while t < sizes.len()
            invariant
                t <= sizes@.len(),
                i < self@.len(),
                self@ == old(self)@,
                sizes@ == self@[i as int].config.format.team_sizes,
                fits == exists|u: int|
                    0 <= u < t && (#[trigger] sizes@[u]) >= player_ids@.len(),
            decreases sizes@.len() - t,
        {
            if sizes[t] >= player_ids.len() {
                fits = true;
            }
            t += 1;
        }
        if !fits {
            return Err(MatchForgeError::ConstraintsNotSatisfied(
                "no team of the queue's format can hold a party of this size".to_string(),
            ));
        }
        let entry = QueueEntry::new_party(
            queue_name,
            party_id,
            player_ids,
            average_rating,
            metadata,
            now_ms,
        );
        match persistence.save_queue_entry(&entry) {
            Ok(()) => {},
            Err(e) => {
                return Err(e);
            },
        }
        let returned = entry.clone();
        proof {
            assert(entry@.player_ids.no_duplicates());
            assert forall|p: u128| entry@.player_ids.contains(p) implies !entries_have_player(
                old(self)@[i as int].entries,
                p,
            ) by {
                let j = choose|j: int|
                    0 <= j < entry@.player_ids.len() && entry@.player_ids[j] == p;
            }
        }
        self.push_entry(i, entry);
        Ok(returned)
    }

    /// Whether any entry of queue `i` carries the participant.
    fn queue_has_player(&self, i: usize, player_id: u128) -> (b: bool)
        requires
            i < self@.len(),
        ensures
            b == entries_have_player(self@[i as int].entries, player_id),
    {
        let entries = &self.queues[i].entries;
        let mut k: usize = 0;
        while k < entries.len()
            invariant
                k <= entries@.len(),
                entries.deep_view() == self@[i as int].entries,
                forall|j: int| 0 <= j < k ==> !(#[trigger] entries.deep_view()[j]).player_ids
                    .contains(player_id),
            decreases entries@.len() - k,
        {
            if contains_id(&entries[k].player_ids, player_id) {
                proof {
                    assert(entries.deep_view()[k as int].player_ids.contains(player_id));
                }
                return true;
            }
            k += 1;
        }
        false
    }

    /// Appends an entry to queue `i`, keeping the manager well formed.
    fn push_entry(&mut self, i: usize, entry: QueueEntry)
        requires
            manager_wf(old(self)@),
            i < old(self)@.len(),
            entry@.queue_name == old(self)@[i as int].config.name,
            entry@.player_ids.len() >= 1,
            entry@.player_ids.no_duplicates(),
            forall|p: u128| entry@.player_ids.contains(p) ==> !entries_have_player(
                old(self)@[i as int].entries,
                p,
            ),
        ensures
            manager_wf(final(self)@),
            final(self)@ =~= old(self)@.update(
                i as int,
                QueueView {
                    config: old(self)@[i as int].config,
                    entries: old(self)@[i as int].entries.push(entry@),
                },
            ),
    {
        let mut rec = self.queues.remove(i);
        rec.entries.push(entry);
        proof {
            assert(rec.entries.deep_view() =~= old(self)@[i as int].entries.push(
                rec.entries@.last()@,
            ));
        }
        self.queues.insert(i, rec);
        proof {
            let before = old(self)@;
            let after = self@;
            let e = before[i as int].entries;
            let ev = after[i as int].entries.last();
            assert(after =~= before.update(
                i as int,
                QueueView { config: before[i as int].config, entries: e.push(ev) },
            ));
            assert(manager_wf(after)) by {
                assert(forall|k: int| 0 <= k < before.len() && k != i ==> after[k] == #[trigger]
                    before[k]);
                assert(entries_wf(after[i as int].entries, after[i as int].config.name)) by {
                    let ne = after[i as int].entries;
                    assert(forall|k: int| 0 <= k < e.len() ==> ne[k] == #[trigger] e[k]);
                    assert(ne.last() == ev);
                    assert(entries_disjoint(ne)) by {
                        assert forall|a: int, b: int, p: u128|
                            0 <= a < b < ne.len() implies !(#[trigger] ne[a].player_ids.contains(p)
                            && #[trigger] ne[b].player_ids.contains(p)) by {
                            if b == ne.len() - 1 {
                                if ne[a].player_ids.contains(p) && ne[b].player_ids.contains(p) {
                                    assert(entries_have_player(e, p));
                                }
                            }
                        }
                    }
                }
            }
        }
    }

    /// Removes every entry of the queue whose participant list contains
    /// `player_id`, deleting the player's stored entries first. Fails
    /// when the queue is missing, when the player sits in no entry of the
    /// queue, or when persistence refuses; on failure the manager is
    /// unchanged.
    pub fn leave_queue<P: PersistenceAdapter>(
        &mut self,
        persistence: &mut P,
        queue_name: &String,
        player_id: u128,
    ) -> (r: Result<(), MatchForgeError>)
        requires
            manager_wf(old(self)@),
        ensures
            manager_wf(final(self)@),
            match r {
                Ok(()) => {
                    let i = queue_index(old(self)@, queue_name@);
                    &&& has_queue(old(self)@, queue_name@)
                    &&& entries_have_player(old(self)@[i].entries, player_id)
                    &&& final(self)@ =~= old(self)@.update(
                        i,
                        QueueView {
                            config: old(self)@[i].config,
                            entries: old(self)@[i].entries.filter(
                                |e: EntryView| !e.player_ids.contains(player_id),
                            ),
                        },
                    )
                    &&& final(persistence).state() == (crate::persistence::StoreView {
                        entries: old(persistence).state().entries.filter(
                            |e: EntryView| !crate::persistence::entry_has_player(e, player_id),
                        ),
                        ..old(persistence).state()
                    })
                },
                Err(e) => {
                    &&& final(self)@ == old(self)@
                    &&& (!has_queue(old(self)@, queue_name@) ==> e is QueueNotFound)
                },
            },
            !has_queue(old(self)@, queue_name@) ==> (r matches Err(
                MatchForgeError::QueueNotFound(n),
            ) && n@ == queue_name@) && final(persistence).state() == old(persistence).state(),
            has_queue(old(self)@, queue_name@) && !entries_have_player(
                old(self)@[queue_index(old(self)@, queue_name@)].entries,
                player_id,
            ) ==> (r matches Err(MatchForgeError::NotInQueue(p)) && p == player_id)
                && final(persistence).state() == old(persistence).state(),
    {
        let i = match self.find_queue(queue_name) {
            Some(i) => i,
            None => {
                return Err(MatchForgeError::QueueNotFound(queue_name.clone()));
            },
        };
        if !self.queue_has_player(i, player_id) {
            return Err(MatchForgeError::NotInQueue(player_id));
        }
        match persistence.delete_queue_entry(player_id) {
            Ok(()) => {},
            Err(e) => {
                return Err(e);
            },
        }
        let ghost pred = |e: EntryView| !e.player_ids.contains(player_id);
        let mut rec = self.queues.remove(i);
        let mut kept: Vec<QueueEntry> = Vec::new();
        let mut k: usize = 0;
        proof {
            reveal(Seq::filter);
            assert(rec.entries.deep_view().take(0) =~= Seq::<EntryView>::empty());
            assert(Seq::<EntryView>::empty().filter(pred) =~= Seq::<EntryView>::empty());
        }
        while k < rec.entries.len()
            invariant
                k <= rec.entries@.len(),
                pred == (|e: EntryView| !e.player_ids.contains(player_id)),
                kept.deep_view() == rec.entries.deep_view().take(k as int).filter(pred),
            decreases rec.entries@.len() - k,
        {
            let ghost taken = rec.entries.deep_view().take(k as int);
            let e = &rec.entries[k];
            if !contains_id(&e.player_ids, player_id) {
                let ghost prev = kept.deep_view();
                kept.push(e.clone());
                proof {
                    assert(kept.deep_view() =~= prev.push(e@));
                }
            }
            proof {
                crate::persistence::lemma_filter_push(
                    taken,
                    rec.entries.deep_view()[k as int],
                    pred,
                );
                assert(rec.entries.deep_view().take(k + 1) =~= taken.push(
                    rec.entries.deep_view()[k as int],
                ));
            }
            k += 1;
        }
        proof {
            assert(rec.entries.deep_view().take(rec.entries@.len() as int) =~= rec.entries
                .deep_view());
        }
        rec.entries = kept;
        self.queues.insert(i, rec);
        proof {
            let before = old(self)@;
            let after = self@;
            assert(after =~= before.update(
                i as int,
                QueueView {
                    config: before[i as int].config,
                    entries: before[i as int].entries.filter(pred),
                },
            ));
            lemma_filter_entries_wf(before[i as int].entries, before[i as int].config.name, pred);
            assert(manager_wf(after)) by {
                assert(forall|k2: int| 0 <= k2 < before.len() && k2 != i ==> after[k2]
                    == #[trigger] before[k2]);
            }
        }
        Ok(())
    }
}

/// Filtering out entries sharing a player with the empty list removes
/// nothing.
proof fn lemma_filter_no_shared_none(s: Seq<EntryView>, ids: Seq<u128>)
    requires
        ids.len() == 0,
    ensures
        s.filter(|e: EntryView| !shares_players(e, ids)) == s,
    decreases s.len(),
{
    reveal(Seq::filter);
    if s.len() > 0 {
        lemma_filter_no_shared_none(s.drop_last(), ids);
        assert(!shares_players(s.last(), ids));
        assert(s.drop_last().push(s.last()) =~= s);
    }
}

/// Filtering entries keeps the per-queue invariant: what remains is a
/// subsequence of well-formed, pairwise-disjoint entries.
proof fn lemma_filter_entries_wf(
    entries: Seq<EntryView>,
    queue_name: Seq<char>,
    pred: spec_fn(EntryView) -> bool,
)
    requires
        entries_wf(entries, queue_name),
    ensures
        entries_wf(entries.filter(pred), queue_name),
    decreases entries.len(),
{
    reveal(Seq::filter);
    if entries.len() > 0 {
        let prefix = entries.drop_last();
        assert(entries_wf(prefix, queue_name)) by {
            assert(forall|k: int| 0 <= k < prefix.len() ==> prefix[k] == #[trigger] entries[k]);
        }
        lemma_filter_entries_wf(prefix, queue_name, pred);
        let f = prefix.filter(pred);
        if pred(entries.last()) {
            assert(entries.filter(pred) == f.push(entries.last()));
            assert(entries_wf(f.push(entries.last()), queue_name)) by {
                let nf = f.push(entries.last());
                assert(forall|k: int| 0 <= k < f.len() ==> nf[k] == #[trigger] f[k]);
                assert(nf.last() == entries.last());
                assert(entries.last() == entries[entries.len() - 1]);
                assert(entries_disjoint(nf)) by {
                    assert forall|a: int, b: int, p: u128|
                        0 <= a < b < nf.len() implies !(#[trigger] nf[a].player_ids.contains(p)
                        && #[trigger] nf[b].player_ids.contains(p)) by {
                        if b == nf.len() - 1 {
                            if nf[a].player_ids.contains(p) && nf[b].player_ids.contains(p) {
                                assert(f.contains(nf[a]));
                                lemma_filter_member_source(prefix, pred, nf[a]);
                                let src = choose|s: int|
                                    0 <= s < prefix.len() && prefix[s] == nf[a];
                                assert(entries[src].player_ids.contains(p));
                                assert(entries[entries.len() - 1].player_ids.contains(p));
                            }
                        }
                    }
                }
            }
        }
    } else {
        assert(entries.filter(pred) =~= entries);
    }
}

/// Every member of a filtered sequence comes from the sequence it was
/// filtered from.
proof fn lemma_filter_member_source<A>(s: Seq<A>, pred: spec_fn(A) -> bool, x: A)
    requires
        s.filter(pred).contains(x),
    ensures
        exists|i: int| 0 <= i < s.len() && s[i] == x,
    decreases s.len(),
{
    reveal(Seq::filter);
    if s.len() > 0 {
        if pred(s.last()) && x == s.last() {
            assert(s[s.len() - 1] == x);
        } else {
            if pred(s.last()) {
                let f = s.drop_last().filter(pred);
                let j = choose|j: int| 0 <= j < f.push(s.last()).len() && f.push(s.last())[j] == x;
                assert(f.contains(x)) by {
                    assert(f.push(s.last())[j] == x && j < f.len());
                }
            }
            lemma_filter_member_source(s.drop_last(), pred, x);
            let i = choose|i: int| 0 <= i < s.drop_last().len() && s.drop_last()[i] == x;
            assert(s[i] == x);
        }
    }
}

/// Admitting a participant and then removing them returns the queue's
/// entry list - and so the queue's size - to exactly what it was before,
/// provided the participant was not already waiting (which admission
/// checks).
pub proof fn lemma_join_then_leave_restores(entries: Seq<EntryView>, entry: EntryView, player_id: u128)
    requires
        !entries_have_player(entries, player_id),
        entry.player_ids.contains(player_id),
    ensures
        entries.push(entry).filter(|e: EntryView| !e.player_ids.contains(player_id)) == entries,
        entries.push(entry).filter(
            |e: EntryView| !e.player_ids.contains(player_id),
        ).len() == entries.len(),
{
    let pred = |e: EntryView| !e.player_ids.contains(player_id);
    crate::persistence::lemma_filter_push(entries, entry, pred);
    lemma_filter_all_kept(entries, pred);
}

/// A filter whose predicate accepts every element changes nothing.
proof fn lemma_filter_all_kept<A>(s: Seq<A>, pred: spec_fn(A) -> bool)
    requires
        forall|i: int| 0 <= i < s.len() ==> pred(#[trigger] s[i]),
    ensures
        s.filter(pred) == s,
    decreases s.len(),
{
    reveal(Seq::filter);
    if s.len() > 0 {
        assert(forall|i: int| 0 <= i < s.drop_last().len() ==> s.drop_last()[i] == #[trigger] s[i]);
        lemma_filter_all_kept(s.drop_last(), pred);
        assert(s.filter(pred) == s.drop_last().push(s.last()));
        assert(s.drop_last().push(s.last()) =~= s);
    }
}

} // verus!

verus! {

use crate::lobby::{entries_flat_players, lemma_entries_flat_covers, lemma_entries_flat_source, collect_match_players};

/// Whether a match fields the participant.
pub open spec fn match_has_player(m: MatchView, player_id: u128) -> bool {
    exists|i: int|
        0 <= i < m.entries.len() && (#[trigger] m.entries[i]).player_ids.contains(player_id)
}

/// Whether an entry shares a participant with the given id list.
pub open spec fn shares_players(e: EntryView, ids: Seq<u128>) -> bool {
    exists|p: u128| #[trigger] e.player_ids.contains(p) && ids.contains(p)
}

/// Whether some entry of the sequence has the given entry id.
/// Whether the store's entry list has gone from `pre` to `post` by
/// pruning exactly the entries that share a participant with `removed`,
/// everything else untouched.
pub open spec fn store_entries_pruned(
    pre: crate::persistence::StoreView,
    post: crate::persistence::StoreView,
    removed: Seq<u128>,
) -> bool {
    post == (crate::persistence::StoreView {
        entries: pre.entries.filter(|e: EntryView| !shares_players(e, removed)),
        ..pre
    })
}

pub open spec fn has_entry_id(entries: Seq<EntryView>, id: u128) -> bool {
    exists|k: int| 0 <= k < entries.len() && (#[trigger] entries[k]).id == id
}

/// Whether the two id lists share an element.
fn intersects_ids(a: &Vec<u128>, b: &Vec<u128>) -> (r: bool)
    ensures
        r == exists|p: u128| #[trigger] a@.contains(p) && b@.contains(p),
{
    let mut i: usize = 0;
    while i < a.len()
        invariant
            i <= a@.len(),
            forall|j: int| 0 <= j < i ==> !b@.contains(#[trigger] a@[j]),
        decreases a@.len() - i,
    {
        if contains_id(b, a[i]) {
            proof {
                assert(a@.contains(a@[i as int]) && b@.contains(a@[i as int]));
            }
            return true;
        }
        i += 1;
    }
    proof {
        if exists|p: u128| #[trigger] a@.contains(p) && b@.contains(p) {
            let p = choose|p: u128| #[trigger] a@.contains(p) && b@.contains(p);
            let j = choose|j: int| 0 <= j < a@.len() && a@[j] == p;
            assert(!b@.contains(a@[j]));
        }
    }
    false
}

/// A filter that rejects some element strictly shrinks the sequence.
proof fn lemma_filter_shrinks<A>(s: Seq<A>, pred: spec_fn(A) -> bool, i: int)
    requires
        0 <= i < s.len(),
        !pred(s[i]),
    ensures
        s.filter(pred).len() < s.len(),
    decreases s.len(),
{
    reveal(Seq::filter);
    s.lemma_filter_len(pred);
    if s.len() > 0 {
        if i == s.len() - 1 {
            s.drop_last().lemma_filter_len(pred);
        } else {
            lemma_filter_shrinks(s.drop_last(), pred, i);
        }
    }
}

/// Pointwise-equal predicates filter identically.
pub proof fn lemma_filter_congruent<A>(s: Seq<A>, p1: spec_fn(A) -> bool, p2: spec_fn(A) -> bool)
    requires
        forall|x: A| #[trigger] p1(x) == p2(x),
    ensures
        s.filter(p1) == s.filter(p2),
    decreases s.len(),
{
    reveal(Seq::filter);
    if s.len() > 0 {
        lemma_filter_congruent(s.drop_last(), p1, p2);
    }
}

/// The snapshot left after cutting every entry that shares a participant
/// with the selected entries of one emitted match.
pub open spec fn cut_matched(entries: Seq<EntryView>, selected: Seq<EntryView>) -> Seq<EntryView> {
    entries.filter(
        |e: EntryView| !shares_players(e, crate::lobby::entries_flat_players(selected)),
    )
}

/// The scans of the successive matches the repeated greedy matcher
/// emits from a snapshot: each round scans the join-time-sorted
/// remainder; a completed scan contributes its state and cuts its
/// participants' entries out; the first incomplete scan ends the drain.
pub open spec fn drain_scans(
    entries: Seq<EntryView>,
    fmt: FormatView,
    c: ConstraintsView,
    now_ms: i64,
) -> Seq<crate::matcher::ScanState>
    decreases entries.len(),
    via drain_scans_decreases
{
    let st = crate::matcher::greedy_scan(
        crate::matcher::sort_by_join_spec(entries),
        fmt.team_sizes,
        c,
        now_ms,
        entries.len() as int,
    );
    if fmt.wf() && fmt.total_players > 0 && crate::matcher::scan_complete(st, fmt.team_sizes) {
        seq![st] + drain_scans(cut_matched(entries, st.selected), fmt, c, now_ms)
    } else {
        Seq::empty()
    }
}

#[via_fn]
proof fn drain_scans_decreases(
    entries: Seq<EntryView>,
    fmt: FormatView,
    c: ConstraintsView,
    now_ms: i64,
) {
    broadcast use vstd::seq_lib::to_multiset_contains;
    broadcast use vstd::seq_lib::to_multiset_len;
    broadcast use vstd::multiset::group_multiset_axioms;

    let sorted = crate::matcher::sort_by_join_spec(entries);
    let st = crate::matcher::greedy_scan(
        sorted,
        fmt.team_sizes,
        c,
        now_ms,
        entries.len() as int,
    );
    if fmt.wf() && fmt.total_players > 0 && crate::matcher::scan_complete(st, fmt.team_sizes) {
        crate::matcher::lemma_sort_spec_multiset(entries);
        assert(sorted.to_multiset().len() == sorted.len());
        assert(entries.to_multiset().len() == entries.len());
        assert(sorted.len() == entries.len());
        crate::matcher::lemma_complete_scan_nonempty(
            sorted,
            fmt.team_sizes,
            c,
            now_ms,
            entries.len() as int,
        );
        crate::matcher::lemma_scan_selected(
            sorted,
            fmt.team_sizes,
            c,
            now_ms,
            entries.len() as int,
        );
        let e0 = st.selected[0];
        assert(sorted.contains(e0));
        assert(sorted.to_multiset().contains(e0));
        assert(entries.to_multiset().contains(e0));
        assert(entries.contains(e0));
        let idx = choose|idx: int| 0 <= idx < entries.len() && entries[idx] == e0;
        let p0 = e0.player_ids[0];
        crate::lobby::lemma_entries_flat_covers(st.selected, 0, p0);
        let pred = |e: EntryView|
            !shares_players(e, crate::lobby::entries_flat_players(st.selected));
        assert(!pred(entries[idx])) by {
            assert(entries[idx].player_ids.contains(p0));
            assert(crate::lobby::entries_flat_players(st.selected).contains(p0));
        }
        lemma_filter_shrinks(entries, pred, idx);
    }
}

/// The queue entries left after the successive emitted matches have been
/// removed by their entry ids, in emission order.
pub open spec fn drained_entries(
    entries: Seq<EntryView>,
    scans: Seq<crate::matcher::ScanState>,
) -> Seq<EntryView>
    decreases scans.len(),
{
    if scans.len() == 0 {
        entries
    } else {
        drained_entries(
            entries.filter(|e: EntryView| !has_entry_id(scans[0].selected, e.id)),
            scans.drop_first(),
        )
    }
}

/// Removing one more emitted match drains from the already-drained
/// remainder.
pub proof fn lemma_drained_snoc(
    entries: Seq<EntryView>,
    scans: Seq<crate::matcher::ScanState>,
    st: crate::matcher::ScanState,
)
    ensures
        drained_entries(entries, scans.push(st)) == drained_entries(entries, scans).filter(
            |e: EntryView| !has_entry_id(st.selected, e.id),
        ),
    decreases scans.len(),
{
    if scans.len() == 0 {
        assert(scans.push(st)[0] == st);
        assert(scans.push(st).drop_first() =~= Seq::<crate::matcher::ScanState>::empty());
        let cut = entries.filter(|e: EntryView| !has_entry_id(st.selected, e.id));
        assert(drained_entries(entries, scans.push(st)) == drained_entries(
            cut,
            scans.push(st).drop_first(),
        ));
        assert(drained_entries(entries, scans) == entries);
    } else {
        assert(scans.push(st)[0] == scans[0]);
        assert(scans.push(st).drop_first() =~= scans.drop_first().push(st));
        lemma_drained_snoc(
            entries.filter(|e: EntryView| !has_entry_id(scans[0].selected, e.id)),
            scans.drop_first(),
            st,
        );
    }
}

impl QueueManager {
    /// Snapshots the queue and greedily assembles zero or more matches at
    /// `now_ms`. Every returned match is valid for the queue's format and
    /// constraints at that moment (its players sum exactly to the format's
    /// total, its team assignment fills every team without splitting an
    /// entry, and its entries are pairwise compatible), every selected
    /// entry is an entry of the queue, and no participant appears in two
    /// returned matches. The queue itself is not changed: the runner
    /// removes matched entries explicitly. An empty result is the normal
    /// outcome when nothing can be formed.
    #[verifier::rlimit(100)]
    #[verifier::spinoff_prover]
    pub fn find_matches(&self, queue_name: &String, now_ms: i64) -> (r: Result<
        Vec<MatchResult>,
        MatchForgeError,
    >)
        requires
            manager_wf(self@),
        ensures
            match r {
                Ok(ms) => {
                    let i = queue_index(self@, queue_name@);
                    &&& has_queue(self@, queue_name@)
                    &&& forall|k: int| 0 <= k < ms.deep_view().len() ==> valid_match(
                        self@[i].config.format,
                        self@[i].config.constraints,
                        #[trigger] ms.deep_view()[k],
                        now_ms,
                    )
                    &&& forall|k: int, j: int|
                        0 <= k < ms.deep_view().len() && 0 <= j < (#[trigger] ms.deep_view()[
                            k
                        ]).entries.len() ==> self@[i].entries.contains(
                            #[trigger] ms.deep_view()[k].entries[j],
                        )
                    &&& forall|k1: int, k2: int, p: u128|
                        #![trigger match_has_player(ms.deep_view()[k1], p), match_has_player(ms.deep_view()[k2], p)]
                        0 <= k1 < k2 < ms.deep_view().len() ==> !(match_has_player(
                            ms.deep_view()[k1],
                            p,
                        ) && match_has_player(ms.deep_view()[k2], p))
                },
                Err(e) => !has_queue(self@, queue_name@) && e is QueueNotFound,
            },
            r matches Ok(ms) ==> {
                let qv = self@[queue_index(self@, queue_name@)];
                let st = crate::matcher::greedy_scan(
                    crate::matcher::sort_by_join_spec(qv.entries),
                    qv.config.format.team_sizes,
                    qv.config.constraints,
                    now_ms,
                    qv.entries.len() as int,
                );
                &&& ((ms.deep_view().len() == 0) <==> (qv.config.format.total_players == 0
                    || !crate::matcher::scan_complete(st, qv.config.format.team_sizes)))
                &&& (ms.deep_view().len() > 0 ==> ms.deep_view()[0].entries == st.selected
                    && ms.deep_view()[0].team_assignments == st.assigns)
            },
            r matches Ok(ms) ==> {
                let qv = self@[queue_index(self@, queue_name@)];
                let ds = drain_scans(qv.entries, qv.config.format, qv.config.constraints, now_ms);
                &&& ms.deep_view().len() == ds.len()
                &&& forall|k: int|
                    0 <= k < ds.len() ==> (#[trigger] ms.deep_view()[k]).entries == ds[k].selected
                        && ms.deep_view()[k].team_assignments == ds[k].assigns
            },
    {
        let i = match self.find_queue(queue_name) {
            Some(i) => i,
            None => {
                return Err(MatchForgeError::QueueNotFound(queue_name.clone()));
            },
        };
        let ghost qi = i as int;
        let ghost fmt = self@[qi].config.format;
        let ghost cns = self@[qi].config.constraints;
        let matcher = GreedyMatcher::new(
            self.queues[i].config.format.clone(),
            self.queues[i].config.constraints.clone(),
        );
        let mut remaining: Vec<QueueEntry> = Vec::new();
        let mut k: usize = 0;
        let src = &self.queues[i].entries;
        while k < src.len()
            invariant
                k <= src@.len(),
                src.deep_view() == self@[qi].entries,
                qi == i as int && i < self@.len(),
                remaining.deep_view() =~= src.deep_view().take(k as int),
            decreases src@.len() - k,
        {
            let ghost prev = remaining.deep_view();
            remaining.push(src[k].clone());
            proof {
                assert(remaining.deep_view() =~= prev.push(src.deep_view()[k as int]));
            }
            k += 1;
        }
        proof {
            assert(remaining.deep_view() =~= self@[qi].entries);
        }
        let mut matches: Vec<MatchResult> = Vec::new();
        let ghost st0 = crate::matcher::greedy_scan(
            crate::matcher::sort_by_join_spec(self@[qi].entries),
            fmt.team_sizes,
            cns,
            now_ms,
            self@[qi].entries.len() as int,
        );
        let ghost mut emitted: Seq<crate::matcher::ScanState> = Seq::empty();
        proof {
            assert(queue_wf(self@[qi]));
            assert(emitted + drain_scans(remaining.deep_view(), fmt, cns, now_ms) =~= drain_scans(
                self@[qi].entries,
                fmt,
                cns,
                now_ms,
            ));
        }
        loop
            invariant
                manager_wf(self@),
                0 <= qi < self@.len(),
                queue_index(self@, queue_name@) == qi,
                fmt == self@[qi].config.format,
                cns == self@[qi].config.constraints,
                matcher.format@ == fmt,
                matcher.constraints@ == cns,
                fmt.wf(),
                entries_wf(remaining.deep_view(), self@[qi].config.name),
                st0 == crate::matcher::greedy_scan(
                    crate::matcher::sort_by_join_spec(self@[qi].entries),
                    fmt.team_sizes,
                    cns,
                    now_ms,
                    self@[qi].entries.len() as int,
                ),
                emitted.len() == matches.deep_view().len(),
                forall|k: int|
                    0 <= k < emitted.len() ==> (#[trigger] matches.deep_view()[k]).entries
                        == emitted[k].selected && matches.deep_view()[k].team_assignments
                        == emitted[k].assigns,
                drain_scans(self@[qi].entries, fmt, cns, now_ms) == emitted + drain_scans(
                    remaining.deep_view(),
                    fmt,
                    cns,
                    now_ms,
                ),
                matches.deep_view().len() == 0 ==> remaining.deep_view() == self@[qi].entries,
                matches.deep_view().len() > 0 ==> fmt.total_players > 0
                    && crate::matcher::scan_complete(st0, fmt.team_sizes)
                    && matches.deep_view()[0].entries == st0.selected
                    && matches.deep_view()[0].team_assignments == st0.assigns,
                forall|k: int| 0 <= k < remaining.deep_view().len() ==> self@[qi].entries.contains(
                    #[trigger] remaining.deep_view()[k],
                ),
                forall|k: int| 0 <= k < matches.deep_view().len() ==> valid_match(
                    fmt,
                    cns,
                    #[trigger] matches.deep_view()[k],
                    now_ms,
                ),
                forall|k: int, j: int|
                    0 <= k < matches.deep_view().len() && 0 <= j < (#[trigger] matches.deep_view()[
                        k
                    ]).entries.len() ==> self@[qi].entries.contains(
                        #[trigger] matches.deep_view()[k].entries[j],
                    ),
                forall|k: int, p: u128|
                    #![trigger match_has_player(matches.deep_view()[k], p)]
                    0 <= k < matches.deep_view().len() && match_has_player(
                        matches.deep_view()[k],
                        p,
                    ) ==> !entries_have_player(remaining.deep_view(), p),
                forall|k1: int, k2: int, p: u128|
                    #![trigger match_has_player(matches.deep_view()[k1], p), match_has_player(matches.deep_view()[k2], p)]
                    0 <= k1 < k2 < matches.deep_view().len() ==> !(match_has_player(
                        matches.deep_view()[k1],
                        p,
                    ) && match_has_player(matches.deep_view()[k2], p)),
            ensures
                matches.deep_view().len() == 0 ==> fmt.total_players == 0
                    || !crate::matcher::scan_complete(st0, fmt.team_sizes),
                drain_scans(self@[qi].entries, fmt, cns, now_ms) == emitted,
                emitted.len() == matches.deep_view().len(),
                forall|k: int|
                    0 <= k < emitted.len() ==> (#[trigger] matches.deep_view()[k]).entries
                        == emitted[k].selected && matches.deep_view()[k].team_assignments
                        == emitted[k].assigns,
            decreases remaining.deep_view().len(),
        {
            let found = matcher.find_match(&remaining, now_ms);
            proof {
                if matches.deep_view().len() == 0 {
                    assert(remaining.deep_view() == self@[qi].entries);
                }
            }
            match found {
                None => {
                    proof {
                        if matches.deep_view().len() == 0 {
                            assert(fmt.total_players == 0 || !crate::matcher::scan_complete(
                                st0,
                                fmt.team_sizes,
                            ));
                        }
                        assert(drain_scans(remaining.deep_view(), fmt, cns, now_ms)
                            =~= Seq::<crate::matcher::ScanState>::empty());
                        assert(emitted + drain_scans(remaining.deep_view(), fmt, cns, now_ms)
                            =~= emitted);
                    }
                    break;
                },
                Some(m) => {
                    let ghost mv = m@;
                    let ghost old_rem = remaining.deep_view();
                    let matched_players = collect_match_players(&m);
                    proof {
                        assert(matched_players@ == entries_flat_players(mv.entries));
                        // Every participant of the match is a participant
                        // of some remaining entry.
                        assert forall|p: u128| match_has_player(mv, p) implies entries_have_player(
                            old_rem,
                            p,
                        ) by {
                            let j = choose|j: int|
                                0 <= j < mv.entries.len() && (#[trigger] mv.entries[j]).player_ids
                                    .contains(p);
                            let rj = choose|rj: int|
                                0 <= rj < old_rem.len() && old_rem[rj] == mv.entries[j];
                        }
                    }
                    // Drop every remaining entry that shares a player
                    // with the committed match.
                    let ghost pred = |e: EntryView| !shares_players(e, matched_players@);
                    let mut kept: Vec<QueueEntry> = Vec::new();
                    let mut k: usize = 0;
                    proof {
                        reveal(Seq::filter);
                        assert(old_rem.take(0) =~= Seq::<EntryView>::empty());
                        assert(Seq::<EntryView>::empty().filter(pred)
                            =~= Seq::<EntryView>::empty());
                    }
                    while k < remaining.len()
                        invariant
                            k <= remaining@.len(),
                            remaining.deep_view() == old_rem,
                            pred == (|e: EntryView| !shares_players(e, matched_players@)),
                            kept.deep_view() == old_rem.take(k as int).filter(pred),
                        decreases remaining@.len() - k,
                    {
                        let ghost taken = old_rem.take(k as int);
                        let e = &remaining[k];
                        if !intersects_ids(&e.player_ids, &matched_players) {
                            let ghost prev = kept.deep_view();
                            kept.push(e.clone());
                            proof {
                                assert(kept.deep_view() =~= prev.push(e@));
                                assert(pred(e@)) by {
                                    if shares_players(e@, matched_players@) {
                                        let p = choose|p: u128|
                                            #[trigger] e@.player_ids.contains(p)
                                                && matched_players@.contains(p);
                                    }
                                }
                            }
                        } else {
                            proof {
                                assert(!pred(e@)) by {
                                    let p = choose|p: u128|
                                        #[trigger] e@.player_ids.contains(p)
                                            && matched_players@.contains(p);
                                }
                            }
                        }
                        proof {
                            crate::persistence::lemma_filter_push(taken, old_rem[k as int], pred);
                            assert(old_rem.take(k + 1) =~= taken.push(old_rem[k as int]));
                        }
                        k += 1;
                    }
                    proof {
                        assert(old_rem.take(old_rem.len() as int) =~= old_rem);
                    }
                    // The first matched entry was a remaining entry that
                    // shares its own players with the match, so the
                    // working snapshot strictly shrinks.
                    proof {
                        assert(mv.entries.len() >= 1);
                        let r0 = choose|r0: int|
                            0 <= r0 < old_rem.len() && old_rem[r0] == mv.entries[0];
                        assert(self@[qi].entries.contains(mv.entries[0]));
                        let s0 = choose|s0: int|
                            0 <= s0 < self@[qi].entries.len() && self@[qi].entries[s0]
                                == mv.entries[0];
                        assert(mv.entries[0].player_ids.len() >= 1) by {
                            assert(queue_wf(self@[qi]));
                        }
                        let p0 = mv.entries[0].player_ids[0];
                        assert(mv.entries[0].player_ids.contains(p0));
                        lemma_entries_flat_covers(mv.entries, 0, p0);
                        assert(!pred(old_rem[r0])) by {
                            assert(old_rem[r0].player_ids.contains(p0)
                                && matched_players@.contains(p0));
                        }
                        lemma_filter_shrinks(old_rem, pred, r0);
                    }
                    let ghost prev_matches = matches.deep_view();
                    let ghost st_rem = crate::matcher::greedy_scan(
                        crate::matcher::sort_by_join_spec(old_rem),
                        fmt.team_sizes,
                        cns,
                        now_ms,
                        old_rem.len() as int,
                    );
                    proof {
                        if prev_matches.len() == 0 {
                            assert(mv.entries == st0.selected && mv.team_assignments == st0.assigns);
                            assert(fmt.total_players > 0 && crate::matcher::scan_complete(
                                st0,
                                fmt.team_sizes,
                            ));
                        }
                        // One drain round: the scan of the remainder is
                        // complete, so the drain emits it and cuts its
                        // participants out, which is exactly the kept
                        // filter.
                        assert(mv.entries == st_rem.selected && mv.team_assignments
                            == st_rem.assigns);
                        assert(drain_scans(old_rem, fmt, cns, now_ms) == seq![st_rem]
                            + drain_scans(cut_matched(old_rem, st_rem.selected), fmt, cns, now_ms));
                        let cpred = |e: EntryView| !shares_players(
                            e,
                            crate::lobby::entries_flat_players(st_rem.selected),
                        );
                        assert forall|e: EntryView| #[trigger] pred(e) == cpred(e) by {
                            assert(matched_players@ == crate::lobby::entries_flat_players(
                                st_rem.selected,
                            ));
                        }
                        lemma_filter_congruent(old_rem, pred, cpred);
                        assert(kept.deep_view() == cut_matched(old_rem, st_rem.selected));
                        assert(emitted.push(st_rem) + drain_scans(
                            cut_matched(old_rem, st_rem.selected),
                            fmt,
                            cns,
                            now_ms,
                        ) =~= emitted + drain_scans(old_rem, fmt, cns, now_ms));
                    }
                    remaining = kept;
                    matches.push(m);
                    proof {
                        emitted = emitted.push(st_rem);
                    }
                    proof {
                        lemma_filter_entries_wf(old_rem, self@[qi].config.name, pred);
                        assert(entries_wf(remaining.deep_view(), self@[qi].config.name));
                        assert(matches.deep_view() =~= prev_matches.push(mv));
                        // Remaining entries still come from the queue.
                        assert forall|k2: int|
                            0 <= k2 < remaining.deep_view().len() implies self@[qi].entries
                            .contains(#[trigger] remaining.deep_view()[k2]) by {
                            lemma_filter_member_source(old_rem, pred, remaining.deep_view()[k2]);
                            let s2 = choose|s2: int|
                                0 <= s2 < old_rem.len()
                                    && old_rem[s2] == remaining.deep_view()[k2];
                        }
                        // No emitted participant survives in the snapshot.
                        assert forall|k2: int, p: u128|
                            #![trigger match_has_player(matches.deep_view()[k2], p)]
                            0 <= k2 < matches.deep_view().len() && match_has_player(
                                matches.deep_view()[k2],
                                p,
                            ) implies !entries_have_player(remaining.deep_view(), p) by {
                            if entries_have_player(remaining.deep_view(), p) {
                                let rj = choose|rj: int|
                                    0 <= rj < remaining.deep_view().len() && (
                                    #[trigger] remaining.deep_view()[rj]).player_ids.contains(p);
                                lemma_filter_member_source(
                                    old_rem,
                                    pred,
                                    remaining.deep_view()[rj],
                                );
                                let s2 = choose|s2: int|
                                    0 <= s2 < old_rem.len() && old_rem[s2]
                                        == remaining.deep_view()[rj];
                                assert(entries_have_player(old_rem, p));
                                if k2 < prev_matches.len() {
                                    assert(match_has_player(prev_matches[k2], p));
                                } else {
                                    // The new match: its players were cut
                                    // from the snapshot.
                                    let j = choose|j: int|
                                        0 <= j < mv.entries.len() && (#[trigger] mv.entries[
                                            j
                                        ]).player_ids.contains(p);
                                    lemma_entries_flat_covers(mv.entries, j, p);
                                    assert(pred(remaining.deep_view()[rj])) by {
                                        old_rem.lemma_filter_pred(pred, rj);
                                    }
                                    assert(shares_players(remaining.deep_view()[rj], matched_players@)) by {
                                        assert(remaining.deep_view()[rj].player_ids.contains(p)
                                            && matched_players@.contains(p));
                                    }
                                }
                            }
                        }
                        // Emitted matches stay pairwise disjoint.
                        assert forall|k1: int, k2: int, p: u128|
                            #![trigger match_has_player(matches.deep_view()[k1], p), match_has_player(matches.deep_view()[k2], p)]
                            0 <= k1 < k2 < matches.deep_view().len() implies !(match_has_player(
                                matches.deep_view()[k1],
                                p,
                            ) && match_has_player(matches.deep_view()[k2], p)) by {
                            if k2 == matches.deep_view().len() - 1 {
                                if match_has_player(matches.deep_view()[k1], p)
                                    && match_has_player(mv, p) {
                                    assert(entries_have_player(old_rem, p));
                                }
                            }
                        }
                    }
                },
            }
        }
        Ok(matches)
    }

    /// A copy of the named queue's format team sizes, whose sum is the
    /// format's player total.
    pub fn queue_format_sizes(&self, queue_name: &String) -> (r: Option<Vec<usize>>)
        requires
            manager_wf(self@),
        ensures
            match r {
                Some(sizes) => {
                    let i = queue_index(self@, queue_name@);
                    &&& has_queue(self@, queue_name@)
                    &&& sizes@ == self@[i].config.format.team_sizes
                    &&& sum_sizes(sizes@) == self@[i].config.format.total_players
                },
                None => !has_queue(self@, queue_name@),
            },
    {
        let i = match self.find_queue(queue_name) {
            Some(i) => i,
            None => {
                return None;
            },
        };
        let src = &self.queues[i].config.format.team_sizes;
        let mut sizes: Vec<usize> = Vec::new();
        let mut k: usize = 0;
        while k < src.len()
            invariant
                k <= src@.len(),
                src@ == self@[queue_index(self@, queue_name@)].config.format.team_sizes,
                sizes@ =~= src@.subrange(0, k as int),
            decreases src@.len() - k,
        {
            sizes.push(src[k]);
            k += 1;
        }
        proof {
            assert(sizes@ =~= src@);
            assert(queue_wf(self@[i as int]));
        }
        Some(sizes)
    }

    /// Deletes the given matched entries from the queue by their entry
    /// ids, after asking persistence to delete each matched participant's
    /// stored entries. A refused storage deletion fails the call before
    /// the queue itself is touched. On success the store holds exactly
    /// the entries carrying none of the matched participants.
    pub fn remove_matched_entries<P: PersistenceAdapter>(
        &mut self,
        persistence: &mut P,
        queue_name: &String,
        entries: &Vec<QueueEntry>,
    ) -> (r: Result<(), MatchForgeError>)
        requires
            manager_wf(old(self)@),
        ensures
            manager_wf(final(self)@),
            match r {
                Ok(()) => {
                    let i = queue_index(old(self)@, queue_name@);
                    &&& has_queue(old(self)@, queue_name@)
                    &&& final(self)@ =~= old(self)@.update(
                        i,
                        QueueView {
                            config: old(self)@[i].config,
                            entries: old(self)@[i].entries.filter(
                                |e: EntryView| !has_entry_id(entries.deep_view(), e.id),
                            ),
                        },
                    )
                    &&& final(persistence).state() == (crate::persistence::StoreView {
                        entries: old(persistence).state().entries.filter(
                            |e: EntryView| !shares_players(
                                e,
                                crate::lobby::entries_flat_players(entries.deep_view()),
                            ),
                        ),
                        ..old(persistence).state()
                    })
                },
                Err(e) => final(self)@ == old(self)@ && (!has_queue(old(self)@, queue_name@)
                    ==> e is QueueNotFound),
            },
            !has_queue(old(self)@, queue_name@) ==> (r matches Err(
                MatchForgeError::QueueNotFound(n),
            ) && n@ == queue_name@) && final(persistence).state() == old(persistence).state(),
            // A refused call leaves the queue untouched; the store has
            // been pruned of some prefix of the matched participants.
            r is Err ==> final(self)@ == old(self)@ && exists|w: int|
                0 <= w <= crate::lobby::entries_flat_players(entries.deep_view()).len()
                    && #[trigger] store_entries_pruned(
                    old(persistence).state(),
                    final(persistence).state(),
                    crate::lobby::entries_flat_players(entries.deep_view()).take(w),
                ),
    {
        proof {
            lemma_filter_no_shared_none(
                persistence.state().entries,
                crate::lobby::entries_flat_players(entries.deep_view()).take(0),
            );
            assert(store_entries_pruned(
                persistence.state(),
                persistence.state(),
                crate::lobby::entries_flat_players(entries.deep_view()).take(0),
            )) by {
                assert(persistence.state() =~= (crate::persistence::StoreView {
                    entries: persistence.state().entries,
                    ..persistence.state()
                }));
            }
        }
        let i = match self.find_queue(queue_name) {
            Some(i) => i,
            None => {
                return Err(MatchForgeError::QueueNotFound(queue_name.clone()));
            },
        };
        let mut ids: Vec<u128> = Vec::new();
        let mut k: usize = 0;
        while k < entries.len()
            invariant
                k <= entries@.len(),
                ids@.len() == k,
                forall|j: int| 0 <= j < k ==> ids@[j] == (#[trigger] entries.deep_view()[j]).id,
            decreases entries@.len() - k,
        {
            ids.push(entries[k].id);
            k += 1;
        }
        // Delete the matched participants' stored entries first, so a
        // refused deletion leaves the queue untouched.
        let mut players: Vec<u128> = Vec::new();
        let mut a: usize = 0;
        proof {
            assert(entries.deep_view().take(0) =~= Seq::<EntryView>::empty());
            assert(players@ =~= crate::lobby::entries_flat_players(entries.deep_view().take(0)));
        }
        while a < entries.len()
            invariant
                a <= entries@.len(),
                players@ =~= crate::lobby::entries_flat_players(entries.deep_view().take(a as int)),
            decreases entries@.len() - a,
        {
            let entry = &entries[a];
            let mut b: usize = 0;
            while b < entry.player_ids.len()
                invariant
                    b <= entry.player_ids@.len(),
                    a < entries@.len(),
                    entry.player_ids@ == entries.deep_view()[a as int].player_ids,
                    players@ =~= crate::lobby::entries_flat_players(
                        entries.deep_view().take(a as int),
                    ) + entry.player_ids@.subrange(0, b as int),
                decreases entry.player_ids@.len() - b,
            {
                players.push(entry.player_ids[b]);
                b += 1;
                proof {
                    assert(players@ =~= crate::lobby::entries_flat_players(
                        entries.deep_view().take(a as int),
                    ) + entry.player_ids@.subrange(0, b as int));
                }
            }
            proof {
                let taken = entries.deep_view().take(a + 1);
                assert(taken.drop_last() =~= entries.deep_view().take(a as int));
                assert(taken.last() == entries.deep_view()[a as int]);
                assert(entry.player_ids@.subrange(0, entry.player_ids@.len() as int)
                    =~= entry.player_ids@);
                assert(players@ =~= crate::lobby::entries_flat_players(taken));
            }
            a += 1;
        }
        proof {
            assert(entries.deep_view().take(entries.deep_view().len() as int)
                =~= entries.deep_view());
        }
        let mut w: usize = 0;
        proof {
            reveal(Seq::filter);
            assert(players@.take(0) =~= Seq::<u128>::empty());
            lemma_filter_no_shared_none(old(persistence).state().entries, players@.take(0));
        }
        while w < players.len()
            invariant
                w <= players@.len(),
                self@ == old(self)@,
                manager_wf(self@),
                has_queue(self@, queue_name@),
                queue_index(self@, queue_name@) == i as int,
                i < self@.len(),
                players@ == crate::lobby::entries_flat_players(entries.deep_view()),
                persistence.state() == (crate::persistence::StoreView {
                    entries: old(persistence).state().entries.filter(
                        |e: EntryView| !shares_players(e, players@.take(w as int)),
                    ),
                    ..old(persistence).state()
                }),
            decreases players@.len() - w,
        {
            let pid = players[w];
            match persistence.delete_queue_entry(pid) {
                Ok(()) => {},
                Err(e) => {
                    proof {
                        assert(store_entries_pruned(
                            old(persistence).state(),
                            persistence.state(),
                            players@.take(w as int),
                        ));
                    }
                    return Err(e);
                },
            }
            proof {
                let p1 = |e: EntryView| !shares_players(e, players@.take(w as int));
                let p2 = |e: EntryView| !crate::persistence::entry_has_player(e, pid);
                let p12 = |e: EntryView| !shares_players(e, players@.take(w + 1));
                assert forall|x: EntryView| #[trigger] p12(x) == (p1(x) && p2(x)) by {
                    assert(players@.take(w + 1) =~= players@.take(w as int).push(pid));
                    if shares_players(x, players@.take(w + 1)) {
                        let p = choose|p: u128|
                            #[trigger] x.player_ids.contains(p) && players@.take(w + 1).contains(
                                p,
                            );
                        if p == pid {
                            assert(crate::persistence::entry_has_player(x, pid));
                        } else {
                            let ix = choose|ix: int|
                                0 <= ix < players@.take(w + 1).len() && #[trigger] players@.take(
                                    w + 1,
                                )[ix] == p;
                            assert(players@.take(w as int)[ix] == p);
                            assert(shares_players(x, players@.take(w as int)));
                        }
                    }
                    if shares_players(x, players@.take(w as int)) {
                        let p = choose|p: u128|
                            #[trigger] x.player_ids.contains(p) && players@.take(
                                w as int,
                            ).contains(p);
                        let ix = choose|ix: int|
                            0 <= ix < players@.take(w as int).len() && #[trigger] players@.take(
                                w as int,
                            )[ix] == p;
                        assert(players@.take(w + 1)[ix] == p);
                        assert(shares_players(x, players@.take(w + 1)));
                    }
                    if crate::persistence::entry_has_player(x, pid) {
                        assert(players@.take(w + 1)[w as int] == pid);
                        assert(shares_players(x, players@.take(w + 1)));
                    }
                }
                crate::persistence::lemma_filter_compose(
                    old(persistence).state().entries,
                    p1,
                    p2,
                    p12,
                );
                assert(persistence.state() == (crate::persistence::StoreView {
                    entries: old(persistence).state().entries.filter(
                        |e: EntryView| !shares_players(e, players@.take(w + 1)),
                    ),
                    ..old(persistence).state()
                }));
            }
            w += 1;
        }
        proof {
            assert(players@.take(players@.len() as int) =~= players@);
        }
        let ghost pred = |e: EntryView| !has_entry_id(entries.deep_view(), e.id);
        let mut rec = self.queues.remove(i);
        let mut kept: Vec<QueueEntry> = Vec::new();
        let mut k2: usize = 0;
        proof {
            reveal(Seq::filter);
            assert(rec.entries.deep_view().take(0) =~= Seq::<EntryView>::empty());
            assert(Seq::<EntryView>::empty().filter(pred) =~= Seq::<EntryView>::empty());
        }
        while k2 < rec.entries.len()
            invariant
                k2 <= rec.entries@.len(),
                pred == (|e: EntryView| !has_entry_id(entries.deep_view(), e.id)),
                ids@.len() == entries.deep_view().len(),
                forall|j: int| 0 <= j < ids@.len() ==> ids@[j] == (
                #[trigger] entries.deep_view()[j]).id,
                kept.deep_view() == rec.entries.deep_view().take(k2 as int).filter(pred),
            decreases rec.entries@.len() - k2,
        {
            let ghost taken = rec.entries.deep_view().take(k2 as int);
            let e = &rec.entries[k2];
            if !contains_id(&ids, e.id) {
                let ghost prev = kept.deep_view();
                kept.push(e.clone());
                proof {
                    assert(kept.deep_view() =~= prev.push(e@));
                    assert(pred(e@)) by {
                        if has_entry_id(entries.deep_view(), e@.id) {
                            let j = choose|j: int|
                                0 <= j < entries.deep_view().len() && (
                                #[trigger] entries.deep_view()[j]).id == e@.id;
                            assert(ids@[j] == e@.id);
                            assert(ids@.contains(e@.id));
                        }
                    }
                }
            } else {
                proof {
                    assert(!pred(e@)) by {
                        let j = choose|j: int| 0 <= j < ids@.len() && ids@[j] == e@.id;
                        assert(entries.deep_view()[j].id == e@.id);
                    }
                }
            }
            proof {
                crate::persistence::lemma_filter_push(
                    taken,
                    rec.entries.deep_view()[k2 as int],
                    pred,
                );
                assert(rec.entries.deep_view().take(k2 + 1) =~= taken.push(
                    rec.entries.deep_view()[k2 as int],
                ));
            }
            k2 += 1;
        }
        proof {
            assert(rec.entries.deep_view().take(rec.entries@.len() as int) =~= rec.entries
                .deep_view());
        }
        rec.entries = kept;
        self.queues.insert(i, rec);
        proof {
            let before = old(self)@;
            assert(self@ =~= before.update(
                i as int,
                QueueView {
                    config: before[i as int].config,
                    entries: before[i as int].entries.filter(pred),
                },
            ));
            lemma_filter_entries_wf(before[i as int].entries, before[i as int].config.name, pred);
            assert(manager_wf(self@)) by {
                assert(forall|k3: int| 0 <= k3 < before.len() && k3 != i ==> self@[k3]
                    == #[trigger] before[k3]);
            }
        }
        Ok(())
    }
}

} // verus!

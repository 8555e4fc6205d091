//! The runner and the lobby manager: the periodic tick that turns queue
//! snapshots into lobbies under a per-tick budget, and the operations that
//! drive a stored lobby through readiness, dispatch, close and outcome
//! integration.
//!
//! The runner here is the decision core: the host owns the actual timer
//! loop and calls `process_tick` once per interval.

use vstd::prelude::*;

verus! {

use crate::algorithm::MmrAlgorithm;
use crate::error::MatchForgeError;
use crate::lobby::{
    lobby_team_of, Lobby, LobbyMetadata, LobbyState, LobbyView, lemma_entries_flat_len,
    match_flat_players,
};
use crate::matcher::MatchResult;
use crate::persistence::{PersistenceAdapter, StoreView};
use crate::queue_manager::{has_entry_id, has_queue, manager_wf, queue_index, QueueManager, QueueView};
use crate::rating::{clamp_rating_spec, Outcome, Rating};

/// Per-queue runner settings: whether the tick serves the queue, with
/// what priority (lower first), and how many matches one tick may take
/// from it.
#[derive(Debug, Clone, Copy, PartialEq, Eq, Structural)]
pub struct QueueRunnerConfig {
    /// Whether the tick processes this queue at all.
    pub enabled: bool,
    /// Processing priority; a lower number is served earlier.
    pub priority: u8,
    /// The most matches one tick may commit from this queue.
    pub max_concurrent_matches: usize,
}

/// The mathematical content of a `RunnerConfig`.
#[verifier::ext_equal]
pub ghost struct RunnerConfigView {
    pub tick_interval_ms: u64,
    pub max_matches_per_tick: usize,
    pub auto_dispatch: bool,
    pub queue_configs: Seq<(Seq<char>, QueueRunnerConfig)>,
}

/// Configuration of the matchmaking runner: the tick interval the host
/// should drive, the per-tick match budget, whether fresh lobbies are
/// dispatched at once, and the per-queue settings.
#[derive(Debug)]
pub struct RunnerConfig {
    /// How often the host should call `process_tick`, in milliseconds.
    pub tick_interval_ms: u64,
    /// The most matches one tick may commit across all queues.
    pub max_matches_per_tick: usize,
    /// Whether a fresh lobby is driven straight to `Dispatched`.
    pub auto_dispatch: bool,
    /// Per-queue settings, keyed by queue name.
    pub queue_configs: Vec<(String, QueueRunnerConfig)>,
}

impl View for RunnerConfig {
    type V = RunnerConfigView;

    open spec fn view(&self) -> RunnerConfigView {
        RunnerConfigView {
            tick_interval_ms: self.tick_interval_ms,
            max_matches_per_tick: self.max_matches_per_tick,
            auto_dispatch: self.auto_dispatch,
            queue_configs: self.queue_configs@.map_values(
                |p: (String, QueueRunnerConfig)| (p.0@, p.1),
            ),
        }
    }
}

impl Clone for RunnerConfig {
    /// A clone carries exactly the same configuration.
    fn clone(&self) -> (c: RunnerConfig)
        ensures
            c@ == self@,
    {
        let mut qcs: Vec<(String, QueueRunnerConfig)> = Vec::new();
        let mut i: usize = 0;
        while i < self.queue_configs.len()
            invariant
                i <= self.queue_configs@.len(),
                qcs@.len() == i,
                forall|j: int| 0 <= j < i ==> (#[trigger] qcs@[j]).0@ == self.queue_configs@[j].0@
                    && qcs@[j].1 == self.queue_configs@[j].1,
            decreases self.queue_configs@.len() - i,
        {
            let pair = (self.queue_configs[i].0.clone(), self.queue_configs[i].1);
            qcs.push(pair);
            i += 1;
        }
        let c = RunnerConfig {
            tick_interval_ms: self.tick_interval_ms,
            max_matches_per_tick: self.max_matches_per_tick,
            auto_dispatch: self.auto_dispatch,
            queue_configs: qcs,
        };
        proof {
            assert(c@ =~= self@);
        }
        c
    }
}

impl RunnerConfig {
    /// The conventional configuration: one tick a second, a thousand
    /// matches per tick, auto-dispatch on, and presets for a ranked duel
    /// queue and a casual squad queue.
    pub fn default() -> (c: RunnerConfig)
        ensures
            c@.tick_interval_ms == 1000,
            c@.max_matches_per_tick == 1000,
            c@.auto_dispatch,
            c@.queue_configs =~= seq![
                ("ranked_1v1"@, QueueRunnerConfig { enabled: true, priority: 1, max_concurrent_matches: 100 }),
                ("casual_5v5"@, QueueRunnerConfig { enabled: true, priority: 2, max_concurrent_matches: 50 }),
            ],
    {
        let mut qcs: Vec<(String, QueueRunnerConfig)> = Vec::new();
        qcs.push((
            "ranked_1v1".to_string(),
            QueueRunnerConfig { enabled: true, priority: 1, max_concurrent_matches: 100 },
        ));
        qcs.push((
            "casual_5v5".to_string(),
            QueueRunnerConfig { enabled: true, priority: 2, max_concurrent_matches: 50 },
        ));
        let c = RunnerConfig {
            tick_interval_ms: 1000,
            max_matches_per_tick: 1000,
            auto_dispatch: true,
            queue_configs: qcs,
        };
        proof {
            assert(c@.queue_configs =~= seq![
                ("ranked_1v1"@, QueueRunnerConfig { enabled: true, priority: 1, max_concurrent_matches: 100 }),
                ("casual_5v5"@, QueueRunnerConfig { enabled: true, priority: 2, max_concurrent_matches: 50 }),
            ]);
        }
        c
    }

    /// The default configuration at twice the pace: a tick every half
    /// second.
    pub fn fast() -> (c: RunnerConfig)
        ensures
            c@ == (RunnerConfigView { tick_interval_ms: 500, ..RunnerConfig::default_view() }),
    {
        let mut c = RunnerConfig::default();
        c.tick_interval_ms = 500;
        proof {
            assert(c@ =~= (RunnerConfigView {
                tick_interval_ms: 500,
                ..RunnerConfig::default_view()
            }));
        }
        c
    }

    /// The default configuration at a fifth of the pace: a tick every
    /// five seconds.
    pub fn slow() -> (c: RunnerConfig)
        ensures
            c@ == (RunnerConfigView { tick_interval_ms: 5000, ..RunnerConfig::default_view() }),
    {
        let mut c = RunnerConfig::default();
        c.tick_interval_ms = 5000;
        proof {
            assert(c@ =~= (RunnerConfigView {
                tick_interval_ms: 5000,
                ..RunnerConfig::default_view()
            }));
        }
        c
    }

    /// What `default` returns, as a view.
    pub open spec fn default_view() -> RunnerConfigView {
        RunnerConfigView {
            tick_interval_ms: 1000,
            max_matches_per_tick: 1000,
            auto_dispatch: true,
            queue_configs: seq![
                ("ranked_1v1"@, QueueRunnerConfig { enabled: true, priority: 1, max_concurrent_matches: 100 }),
                ("casual_5v5"@, QueueRunnerConfig { enabled: true, priority: 2, max_concurrent_matches: 50 }),
            ],
        }
    }
}

/// The periodic matchmaking driver. The host owns the timer: it calls
/// `start` once, then `process_tick` every `tick_interval_ms` while
/// `is_running`, and `stop` to let the loop wind down after the current
/// tick.
pub struct MatchmakingRunner {
    config: RunnerConfig,
    running: bool,
}

impl MatchmakingRunner {
    /// A stopped runner with the given configuration.
    pub fn new(config: RunnerConfig) -> (r: MatchmakingRunner)
        ensures
            r.config_spec() == config@,
            !r.running(),
    {
        MatchmakingRunner { config, running: false }
    }

    /// The runner's configuration, as a view.
    pub closed spec fn config_spec(&self) -> RunnerConfigView {
        self.config@
    }

    /// The interval the host should drive ticks at, in milliseconds.
    pub fn tick_interval_ms(&self) -> (t: u64)
        ensures
            t == self.config_spec().tick_interval_ms,
    {
        self.config.tick_interval_ms
    }

    /// Whether the runner has been started and not yet stopped.
    pub closed spec fn running(&self) -> bool {
        self.running
    }

    /// Marks the runner started. Starting a running runner fails and
    /// changes nothing.
    pub fn start(&mut self) -> (r: Result<(), MatchForgeError>)
        ensures
            final(self).config_spec() == old(self).config_spec(),
            match r {
                Ok(()) => !old(self).running() && final(self).running(),
                Err(e) => old(self).running() && final(self).running() && e is OperationFailed,
            },
    {
        if self.running {
            Err(MatchForgeError::OperationFailed("the runner is already running".to_string()))
        } else {
            self.running = true;
            Ok(())
        }
    }

    /// Signals the tick loop to exit after the current tick.
    pub fn stop(&mut self)
        ensures
            final(self).config_spec() == old(self).config_spec(),
            !final(self).running(),
    {
        self.running = false;
    }

    /// Whether the runner is currently running.
    pub fn is_running(&self) -> (b: bool)
        ensures
            b == self.running(),
    {
        self.running
    }

    /// Processes one tick: walks the enabled queues by ascending priority
    /// (ties broken by name for deterministic ticks) under the per-tick
    /// budget, committing at most `max_concurrent_matches` from each
    /// queue. A failing queue does not halt the tick: every following
    /// queue is still processed, and the first failure is returned once
    /// the walk is over. A fully successful tick over a single enabled
    /// queue has drained exactly its budgeted matches from that queue and
    /// committed each one to the store.
    pub fn process_tick<P: PersistenceAdapter>(
        &self,
        queue_manager: &mut QueueManager,
        persistence: &mut P,
        now_ms: i64,
    ) -> (r: Result<(), MatchForgeError>)
        requires
            manager_wf(old(queue_manager)@),
        ensures
            manager_wf(final(queue_manager)@),
            ({
                let en = enabled_pairs(self.config_spec().queue_configs);
                r is Ok && en.len() == 1 && self.config_spec().max_matches_per_tick > 0
            }) ==> ({
                let en = enabled_pairs(self.config_spec().queue_configs);
                let budget = if self.config_spec().max_matches_per_tick <= en[
                    0
                ].1.max_concurrent_matches {
                    self.config_spec().max_matches_per_tick as int
                } else {
                    en[0].1.max_concurrent_matches as int
                };
                queue_tick_effect(
                    old(queue_manager)@,
                    final(queue_manager)@,
                    old(persistence).state(),
                    final(persistence).state(),
                    en[0].0,
                    budget,
                    self.config_spec().auto_dispatch,
                    now_ms,
                )
            }),
    {
        let ghost qcs = self.config_spec().queue_configs;
        let ghost en = enabled_pairs(qcs);
        let ghost mut srcs: Seq<int> = Seq::empty();
        let mut order: Vec<(String, QueueRunnerConfig)> = Vec::new();
        let mut i: usize = 0;
        proof {
            assert(qcs.take(0) =~= Seq::<(Seq<char>, QueueRunnerConfig)>::empty());
            assert(enabled_pairs(qcs.take(0)) =~= Seq::<(Seq<char>, QueueRunnerConfig)>::empty())
                by {
                reveal(Seq::filter);
            }
        }
        while i < self.config.queue_configs.len()
            invariant
                i <= self.config.queue_configs@.len(),
                sorted_by_priority(order@),
                qcs == self.config_spec().queue_configs,
                qcs.len() == self.config.queue_configs@.len(),
                order@.len() == enabled_pairs(qcs.take(i as int)).len(),
                srcs.len() == order@.len(),
                forall|k: int|
                    0 <= k < order@.len() ==> 0 <= #[trigger] srcs[k] < i && order@[k].0@ == qcs[
                        srcs[k]
                    ].0 && order@[k].1 == qcs[srcs[k]].1 && qcs[srcs[k]].1.enabled,
            decreases self.config.queue_configs@.len() - i,
        {
            let pair = &self.config.queue_configs[i];
            proof {
                assert(qcs[i as int] == (self.config.queue_configs@[i as int].0@, self.config
                    .queue_configs@[i as int].1));
            }
            if pair.1.enabled {
                let cloned = (pair.0.clone(), pair.1);
                let mut pos: usize = order.len();
                while pos > 0 && tick_order_before(&cloned, &order[pos - 1])
                    invariant
                        pos <= order@.len(),
                        sorted_by_priority(order@),
                        forall|k: int| pos <= k < order@.len() ==> tick_le(
                            cloned.1.priority,
                            cloned.0@,
                            (#[trigger] order@[k]).1.priority,
                            order@[k].0@,
                        ),
                    decreases pos,
                {
                    pos -= 1;
                }
                let ghost before = order@;
                proof {
                    if pos > 0 {
                        assert(tick_le(
                            before[pos - 1].1.priority,
                            before[pos - 1].0@,
                            cloned.1.priority,
                            cloned.0@,
                        ));
                    }
                }
                order.insert(pos, cloned);
                proof {
                    lemma_tick_insert_sorted(before, order@, pos as int);
                    assert(qcs.take(i + 1) =~= qcs.take(i as int).push(qcs[i as int]));
                    crate::persistence::lemma_filter_push(
                        qcs.take(i as int),
                        qcs[i as int],
                        |p: (Seq<char>, QueueRunnerConfig)| p.1.enabled,
                    );
                    assert(qcs[i as int].1.enabled);
                    assert(enabled_pairs(qcs.take(i + 1)) == qcs.take(i + 1).filter(
                        |p: (Seq<char>, QueueRunnerConfig)| p.1.enabled,
                    ));
                    assert(enabled_pairs(qcs.take(i as int)) == qcs.take(i as int).filter(
                        |p: (Seq<char>, QueueRunnerConfig)| p.1.enabled,
                    ));
                    assert(order@.len() == enabled_pairs(qcs.take(i + 1)).len());
                    let ghost prev_srcs = srcs;
                    srcs = srcs.insert(pos as int, i as int);
                    assert forall|k: int|
                        0 <= k < order@.len() implies 0 <= #[trigger] srcs[k] < i + 1
                            && order@[k].0@ == qcs[srcs[k]].0 && order@[k].1 == qcs[srcs[k]].1
                            && qcs[srcs[k]].1.enabled by {
                        if k < pos {
                            assert(order@[k] == before[k] && srcs[k] == prev_srcs[k]);
                        } else if k == pos {
                            assert(order@[k] == cloned && srcs[k] == i as int);
                            assert(cloned.0@ == qcs[i as int].0 && cloned.1 == qcs[i as int].1
                                && qcs[i as int].1.enabled);
                        } else {
                            assert(order@[k] == before[k - 1] && srcs[k] == prev_srcs[k - 1]);
                        }
                    }
                }
            } else {
                proof {
                    assert(qcs.take(i + 1) =~= qcs.take(i as int).push(qcs[i as int]));
                    crate::persistence::lemma_filter_push(
                        qcs.take(i as int),
                        qcs[i as int],
                        |p: (Seq<char>, QueueRunnerConfig)| p.1.enabled,
                    );
                    assert(!qcs[i as int].1.enabled);
                    assert(enabled_pairs(qcs.take(i + 1)) == qcs.take(i + 1).filter(
                        |p: (Seq<char>, QueueRunnerConfig)| p.1.enabled,
                    ));
                    assert(enabled_pairs(qcs.take(i as int)) == qcs.take(i as int).filter(
                        |p: (Seq<char>, QueueRunnerConfig)| p.1.enabled,
                    ));
                }
            }
            i += 1;
        }
        proof {
            assert(qcs.take(qcs.len() as int) =~= qcs);
            if en.len() == 1 {
                // The single enabled pair is the one the walk collected.
                assert(order@.len() == 1);
                let j = srcs[0];
                lemma_filter_keeps_member(
                    qcs,
                    |p: (Seq<char>, QueueRunnerConfig)| p.1.enabled,
                    j,
                );
                assert(en == qcs.filter(|p: (Seq<char>, QueueRunnerConfig)| p.1.enabled));
                assert(en.contains(qcs[j]));
                let pos = choose|pos: int| 0 <= pos < en.len() && en[pos] == qcs[j];
                assert(en[0] == qcs[j]);
                assert(order@[0].0@ == en[0].0 && order@[0].1 == en[0].1);
            }
        }
        let mut first_err: Option<MatchForgeError> = None;
        let mut budget: usize = self.config.max_matches_per_tick;
        let mut q: usize = 0;
        while q < order.len()
            invariant
                manager_wf(queue_manager@),
                qcs == self.config_spec().queue_configs,
                en == enabled_pairs(qcs),
                q <= order@.len(),
                (en.len() == 1 && self.config.max_matches_per_tick > 0) ==> ({
                    &&& order@.len() == 1
                    &&& order@[0].0@ == en[0].0
                    &&& order@[0].1 == en[0].1
                    &&& (q == 0 ==> queue_manager@ == old(queue_manager)@ && persistence.state()
                        == old(persistence).state() && budget == self.config.max_matches_per_tick
                        && first_err is None)
                    &&& (q >= 1 ==> (first_err is Some || queue_tick_effect(
                        old(queue_manager)@,
                        queue_manager@,
                        old(persistence).state(),
                        persistence.state(),
                        en[0].0,
                        if self.config.max_matches_per_tick <= en[0].1.max_concurrent_matches {
                            self.config.max_matches_per_tick as int
                        } else {
                            en[0].1.max_concurrent_matches as int
                        },
                        self.config.auto_dispatch,
                        now_ms,
                    )))
                }),
            ensures
                (en.len() == 1 && self.config.max_matches_per_tick > 0) ==> (q >= 1 && (first_err
                    is Some || queue_tick_effect(
                    old(queue_manager)@,
                    queue_manager@,
                    old(persistence).state(),
                    persistence.state(),
                    en[0].0,
                    if self.config.max_matches_per_tick <= en[0].1.max_concurrent_matches {
                        self.config.max_matches_per_tick as int
                    } else {
                        en[0].1.max_concurrent_matches as int
                    },
                    self.config.auto_dispatch,
                    now_ms,
                ))),
            decreases order@.len() - q,
        {
            if budget == 0 {
                break;
            }
            let per_queue = order[q].1.max_concurrent_matches;
            let to_take: usize = if budget <= per_queue { budget } else { per_queue };
            match self.process_queue(queue_manager, persistence, &order[q].0, to_take, now_ms) {
                Ok(done) => {
                    budget = budget - if done <= budget { done } else { budget };
                },
                Err(e) => {
                    // A failing queue must not halt the tick; the next
                    // queue is still processed, and the first failure is
                    // reported when the walk is over.
                    if first_err.is_none() {
                        first_err = Some(e);
                    }
                },
            }
            q += 1;
        }
        match first_err {
            None => Ok(()),
            Some(e) => Err(e),
        }
    }

    /// Processes one queue: finds matches at `now_ms`, and for up to
    /// `max_matches` of them materializes a forming lobby, persists it,
    /// removes the matched entries from the queue, and (when configured)
    /// drives the lobby to `Dispatched`, persisting each step. Returns
    /// how many matches were committed, never more than `max_matches`;
    /// every queue but the named one is left exactly as it was.
    pub fn process_queue<P: PersistenceAdapter>(
        &self,
        queue_manager: &mut QueueManager,
        persistence: &mut P,
        queue_name: &String,
        max_matches: usize,
        now_ms: i64,
    ) -> (r: Result<usize, MatchForgeError>)
        requires
            manager_wf(old(queue_manager)@),
        ensures
            manager_wf(final(queue_manager)@),
            final(queue_manager)@.len() == old(queue_manager)@.len(),
            forall|j: int|
                0 <= j < old(queue_manager)@.len() && j != queue_index(
                    old(queue_manager)@,
                    queue_name@,
                ) ==> final(queue_manager)@[j] == old(queue_manager)@[j],
            match r {
                Ok(done) => done <= max_matches,
                Err(_) => true,
            },
            r matches Ok(done) ==> ({
                let i = queue_index(old(queue_manager)@, queue_name@);
                let qv = old(queue_manager)@[i];
                let ds = crate::queue_manager::drain_scans(
                    qv.entries,
                    qv.config.format,
                    qv.config.constraints,
                    now_ms,
                );
                &&& has_queue(old(queue_manager)@, queue_name@)
                &&& (done as int) == (if ds.len() as int <= max_matches as int {
                    ds.len() as int
                } else {
                    max_matches as int
                })
                &&& final(queue_manager)@[i].config == qv.config
                &&& final(queue_manager)@[i].entries == crate::queue_manager::drained_entries(
                    qv.entries,
                    ds.take(done as int),
                )
                &&& committed_stores(
                    old(persistence).state(),
                    final(persistence).state(),
                    ds.take(done as int),
                    qv.config.format.team_sizes,
                    queue_name@,
                    self.config_spec().auto_dispatch,
                    now_ms,
                )
            }),
    {
        let ghost qi0 = queue_index(old(queue_manager)@, queue_name@);
        let ghost qv = old(queue_manager)@[qi0];
        let ghost ds = crate::queue_manager::drain_scans(
            qv.entries,
            qv.config.format,
            qv.config.constraints,
            now_ms,
        );
        let found = queue_manager.find_matches(queue_name, now_ms);
        let matches = match found {
            Ok(ms) => ms,
            Err(e) => {
                return Err(e);
            },
        };
        let mut processed: usize = 0;
        let mut k: usize = 0;
        proof {
            assert(ds.take(0) =~= Seq::<crate::matcher::ScanState>::empty());
            assert(crate::queue_manager::drained_entries(qv.entries, ds.take(0)) == qv.entries);
            assert(committed_stores(
                old(persistence).state(),
                persistence.state(),
                ds.take(0),
                qv.config.format.team_sizes,
                queue_name@,
                self.config.auto_dispatch,
                now_ms,
            ));
        }
        while k < matches.len()
            invariant
                manager_wf(queue_manager@),
                processed <= max_matches,
                queue_manager@.len() == old(queue_manager)@.len(),
                forall|j: int|
                    0 <= j < old(queue_manager)@.len() && j != queue_index(
                        old(queue_manager)@,
                        queue_name@,
                    ) ==> queue_manager@[j] == old(queue_manager)@[j],
                queue_index(queue_manager@, queue_name@) == queue_index(
                    old(queue_manager)@,
                    queue_name@,
                ),
                has_queue(old(queue_manager)@, queue_name@),
                qi0 == queue_index(old(queue_manager)@, queue_name@),
                qv == old(queue_manager)@[qi0],
                ds == crate::queue_manager::drain_scans(
                    qv.entries,
                    qv.config.format,
                    qv.config.constraints,
                    now_ms,
                ),
                processed == k,
                k <= matches.deep_view().len(),
                matches.deep_view().len() == ds.len(),
                forall|j: int|
                    0 <= j < ds.len() ==> (#[trigger] matches.deep_view()[j]).entries == ds[
                        j
                    ].selected && matches.deep_view()[j].team_assignments == ds[j].assigns,
                queue_manager@[qi0].config == qv.config,
                queue_manager@[qi0].entries == crate::queue_manager::drained_entries(
                    qv.entries,
                    ds.take(processed as int),
                ),
                committed_stores(
                    old(persistence).state(),
                    persistence.state(),
                    ds.take(processed as int),
                    qv.config.format.team_sizes,
                    queue_name@,
                    self.config.auto_dispatch,
                    now_ms,
                ),
            ensures
                processed == max_matches || processed as int == matches.deep_view().len(),
            decreases matches@.len() - k,
        {
            if processed >= max_matches {
                break;
            }
            let m = &matches[k];
            let ghost pre = queue_manager@;
            let ghost pre_store = persistence.state();
            match self.commit_match(queue_manager, persistence, queue_name, m, now_ms) {
                Ok(()) => {
                    proof {
                        crate::queue_manager::lemma_queue_index_spec(pre, queue_name@);
                        assert(forall|j: int|
                            0 <= j < pre.len() && j != queue_index(pre, queue_name@)
                                ==> queue_manager@[j] == #[trigger] pre[j]);
                        lemma_queue_index_stable(pre, queue_manager@, queue_name@);
                        // This commit removes exactly the k-th drained
                        // match from queue and store.
                        let ghost spre = pre_store;
                        assert(matches.deep_view()[processed as int] == m.deep_view());
                        assert(m@.entries == ds[processed as int].selected);
                        crate::queue_manager::lemma_filter_congruent(
                            pre[qi0].entries,
                            |e: crate::entry::EntryView| !has_entry_id(
                                m.entries.deep_view(),
                                e.id,
                            ),
                            |e: crate::entry::EntryView| !has_entry_id(
                                ds[processed as int].selected,
                                e.id,
                            ),
                        );
                        crate::queue_manager::lemma_drained_snoc(
                            qv.entries,
                            ds.take(processed as int),
                            ds[processed as int],
                        );
                        assert(ds.take(processed + 1) =~= ds.take(processed as int).push(
                            ds[processed as int],
                        ));
                        lemma_committed_snoc(
                            old(persistence).state(),
                            spre,
                            persistence.state(),
                            ds.take(processed as int),
                            ds[processed as int],
                            qv.config.format.team_sizes,
                            queue_name@,
                            self.config.auto_dispatch,
                            now_ms,
                        );
                    }
                    processed += 1;
                },
                Err(e) => {
                    proof {
                        if queue_manager@ != pre {
                            crate::queue_manager::lemma_queue_index_spec(pre, queue_name@);
                            assert(forall|j: int|
                                0 <= j < pre.len() && j != queue_index(pre, queue_name@)
                                    ==> queue_manager@[j] == #[trigger] pre[j]);
                        }
                    }
                    return Err(e);
                },
            }
            k += 1;
        }
        Ok(processed)
    }

    /// Commits one found match: materializes its lobby with the queue's
    /// team sizes, persists it, removes the matched entries, and when
    /// auto-dispatch is on walks the lobby through readiness to dispatch,
    /// persisting after each transition. On success exactly the match's
    /// entries are gone from the queue; on failure the queue is unchanged.
    fn commit_match<P: PersistenceAdapter>(
        &self,
        queue_manager: &mut QueueManager,
        persistence: &mut P,
        queue_name: &String,
        m: &MatchResult,
        now_ms: i64,
    ) -> (r: Result<(), MatchForgeError>)
        requires
            manager_wf(old(queue_manager)@),
        ensures
            manager_wf(final(queue_manager)@),
            match r {
                Ok(()) => {
                    let i = queue_index(old(queue_manager)@, queue_name@);
                    &&& has_queue(old(queue_manager)@, queue_name@)
                    &&& final(queue_manager)@ =~= old(queue_manager)@.update(
                        i,
                        QueueView {
                            config: old(queue_manager)@[i].config,
                            entries: old(queue_manager)@[i].entries.filter(
                                |e: crate::entry::EntryView| !has_entry_id(
                                    m.entries.deep_view(),
                                    e.id,
                                ),
                            ),
                        },
                    )
                    &&& commit_step(
                        old(persistence).state(),
                        final(persistence).state(),
                        m@.entries,
                        old(queue_manager)@[i].config.format.team_sizes,
                        queue_name@,
                        self.config.auto_dispatch,
                        now_ms,
                    )
                },
                Err(_) => final(queue_manager)@ == old(queue_manager)@ || (has_queue(
                    old(queue_manager)@,
                    queue_name@,
                ) && final(queue_manager)@ =~= old(queue_manager)@.update(
                    queue_index(old(queue_manager)@, queue_name@),
                    QueueView {
                        config: old(queue_manager)@[queue_index(
                            old(queue_manager)@,
                            queue_name@,
                        )].config,
                        entries: old(queue_manager)@[queue_index(
                            old(queue_manager)@,
                            queue_name@,
                        )].entries.filter(
                            |e: crate::entry::EntryView| !has_entry_id(
                                m.entries.deep_view(),
                                e.id,
                            ),
                        ),
                    },
                )),
            },
    {
        let flat = crate::lobby::collect_match_players(m);
        // The matcher never emits a participant twice, but the snapshot
        // is checked rather than trusted across the persistence boundary.
        let mut a: usize = 0;
        while a < flat.len()
            invariant
                manager_wf(queue_manager@),
                queue_manager@ == old(queue_manager)@,
                a <= flat@.len(),
                forall|x: int, y: int|
                    #![trigger flat@[x], flat@[y]]
                    0 <= x < y < flat@.len() && x < a ==> flat@[x] != flat@[y],
            decreases flat@.len() - a,
        {
            let mut b: usize = a + 1;
            while b < flat.len()
                invariant
                    manager_wf(queue_manager@),
                    queue_manager@ == old(queue_manager)@,
                    a < flat@.len(),
                    a < b <= flat@.len(),
                    forall|y: int| a < y < b ==> flat@[a as int] != #[trigger] flat@[y],
                decreases flat@.len() - b,
            {
                if flat[a] == flat[b] {
                    return Err(MatchForgeError::ConstraintsNotSatisfied(
                        "a participant appears twice in the emitted match".to_string(),
                    ));
                }
                b += 1;
            }
            a += 1;
        }
        proof {
            assert(match_flat_players(m@).no_duplicates());
        }
        let sizes = match self.queue_team_sizes(queue_manager, queue_name) {
            Some(s) => s,
            None => {
                return Err(MatchForgeError::QueueNotFound(queue_name.clone()));
            },
        };
        let mut total: u128 = 0;
        let mut t: usize = 0;
        while t < sizes.len()
            invariant
                manager_wf(queue_manager@),
                queue_manager@ == old(queue_manager)@,
                t <= sizes@.len(),
                total == crate::matcher::sum_sizes(sizes@.take(t as int)),
                total <= (usize::MAX as int) * (t as int),
            decreases sizes@.len() - t,
        {
            proof {
                crate::matcher::lemma_sum_take_step(sizes@, t as int);
                assert((usize::MAX as int) * (t as int) + (usize::MAX as int) <= (usize::MAX as int)
                    * (t as int + 1)) by (nonlinear_arith);
                assert((usize::MAX as int) * (t as int + 1) <= (usize::MAX as int) * (
                usize::MAX as int)) by (nonlinear_arith)
                    requires t as int + 1 <= usize::MAX as int;
                assert((usize::MAX as int) * (usize::MAX as int)
                    < 340_282_366_920_938_463_463_374_607_431_768_211_455int) by (nonlinear_arith);
            }
            total = total + sizes[t] as u128;
            t += 1;
        }
        proof {
            assert(sizes@.take(sizes@.len() as int) =~= sizes@);
            lemma_entries_flat_len(m@.entries);
        }
        if total != flat.len() as u128 {
            return Err(MatchForgeError::ConstraintsNotSatisfied(
                "the match does not fill the queue's team sizes".to_string(),
            ));
        }
        let metadata = LobbyMetadata {
            queue_name: queue_name.clone(),
            game_mode: Some(queue_name.clone()),
            map_name: None,
            server_id: None,
            custom: Vec::new(),
        };
        let ghost qi = queue_index(old(queue_manager)@, queue_name@);
        let ghost tsizes = old(queue_manager)@[qi].config.format.team_sizes;
        let ghost s0 = persistence.state();
        let mut lobby = Lobby::from_match_result(m.clone(), sizes, metadata, now_ms);
        let ghost lid = lobby@.id;
        match persistence.save_lobby(&lobby) {
            Ok(()) => {},
            Err(e) => {
                return Err(e);
            },
        }
        let ghost s1 = persistence.state();
        match queue_manager.remove_matched_entries(persistence, queue_name, &m.entries) {
            Ok(()) => {},
            Err(e) => {
                return Err(e);
            },
        }
        proof {
            crate::queue_manager::lemma_filter_congruent(
                s1.entries,
                |e: crate::entry::EntryView| !crate::queue_manager::shares_players(
                    e,
                    crate::lobby::entries_flat_players(m.entries.deep_view()),
                ),
                |e: crate::entry::EntryView| !crate::queue_manager::shares_players(
                    e,
                    crate::lobby::entries_flat_players(m@.entries),
                ),
            );
            assert(persistence.state() == (StoreView {
                lobbies: s0.lobbies.insert(lid, lobby@),
                entries: s0.entries.filter(
                    |e: crate::entry::EntryView| !crate::queue_manager::shares_players(
                        e,
                        crate::lobby::entries_flat_players(m@.entries),
                    ),
                ),
                ..s0
            }));
        }
        let ghost s2 = persistence.state();
        if self.config.auto_dispatch {
            match lobby.transition_to(LobbyState::WaitingForReady) {
                Ok(()) => {},
                Err(e) => {
                    return Err(e);
                },
            }
            match persistence.save_lobby(&lobby) {
                Ok(()) => {},
                Err(e) => {
                    return Err(e);
                },
            }
            match lobby.transition_to(LobbyState::Ready) {
                Ok(()) => {},
                Err(e) => {
                    return Err(e);
                },
            }
            match persistence.save_lobby(&lobby) {
                Ok(()) => {},
                Err(e) => {
                    return Err(e);
                },
            }
            match lobby.transition_to(LobbyState::Dispatched) {
                Ok(()) => {},
                Err(e) => {
                    return Err(e);
                },
            }
            match persistence.save_lobby(&lobby) {
                Ok(()) => {},
                Err(e) => {
                    return Err(e);
                },
            }
        }
        proof {
            let lv = committed_lobby(
                lid,
                m@.match_id,
                m@.entries,
                tsizes,
                queue_name@,
                self.config.auto_dispatch,
                now_ms,
            );
            assert(lv.teams =~= lobby@.teams);
            assert(lv.metadata.custom =~= lobby@.metadata.custom);
            assert(lv =~= lobby@);
            if self.config.auto_dispatch {
                assert(persistence.state().lobbies =~= s0.lobbies.insert(lid, lobby@));
                assert(persistence.state() =~= (StoreView {
                    lobbies: s0.lobbies.insert(lid, lv),
                    entries: s2.entries,
                    ..s0
                }));
            } else {
                assert(persistence.state() =~= (StoreView {
                    lobbies: s0.lobbies.insert(lid, lv),
                    entries: s2.entries,
                    ..s0
                }));
            }
            assert(commit_step(
                s0,
                persistence.state(),
                m@.entries,
                tsizes,
                queue_name@,
                self.config.auto_dispatch,
                now_ms,
            ));
        }
        Ok(())
    }

    /// A copy of the team sizes of the named queue's format.
    fn queue_team_sizes(&self, queue_manager: &QueueManager, queue_name: &String) -> (r: Option<
        Vec<usize>,
    >)
        requires
            manager_wf(queue_manager@),
        ensures
            match r {
                Some(sizes) => {
                    let i = crate::queue_manager::queue_index(queue_manager@, queue_name@);
                    &&& crate::queue_manager::has_queue(queue_manager@, queue_name@)
                    &&& sizes@ == queue_manager@[i].config.format.team_sizes
                    &&& crate::matcher::sum_sizes(sizes@) == queue_manager@[
                        i
                    ].config.format.total_players
                },
                None => !crate::queue_manager::has_queue(queue_manager@, queue_name@),
            },
    {
        let sizes = match queue_manager.queue_format_sizes(queue_name) {
            Some(s) => s,
            None => {
                return None;
            },
        };
        Some(sizes)
    }
}

/// The enabled per-queue configurations, in declaration order.
pub open spec fn enabled_pairs(qcs: Seq<(Seq<char>, QueueRunnerConfig)>) -> Seq<
    (Seq<char>, QueueRunnerConfig),
> {
    qcs.filter(|p: (Seq<char>, QueueRunnerConfig)| p.1.enabled)
}

/// What processing one queue under a budget leaves behind: the drained
/// matches (as many as the budget and the snapshot allow) are cut from
/// the named queue, every other queue is untouched, and the store has
/// absorbed exactly those commits.
pub open spec fn queue_tick_effect(
    pre: Seq<QueueView>,
    post: Seq<QueueView>,
    spre: StoreView,
    spost: StoreView,
    name: Seq<char>,
    budget: int,
    auto: bool,
    now_ms: i64,
) -> bool {
    let i = queue_index(pre, name);
    let qv = pre[i];
    let ds = crate::queue_manager::drain_scans(
        qv.entries,
        qv.config.format,
        qv.config.constraints,
        now_ms,
    );
    let done = if ds.len() as int <= budget {
        ds.len() as int
    } else {
        budget
    };
    &&& has_queue(pre, name)
    &&& post.len() == pre.len()
    &&& (forall|j: int| 0 <= j < pre.len() && j != i ==> post[j] == pre[j])
    &&& post[i].config == qv.config
    &&& post[i].entries == crate::queue_manager::drained_entries(qv.entries, ds.take(done))
    &&& committed_stores(
        spre,
        spost,
        ds.take(done),
        qv.config.format.team_sizes,
        name,
        auto,
        now_ms,
    )
}

/// A member that the predicate keeps is a member of the filtered run.
proof fn lemma_filter_keeps_member<A>(s: Seq<A>, pred: spec_fn(A) -> bool, i: int)
    requires
        0 <= i < s.len(),
        pred(s[i]),
    ensures
        s.filter(pred).contains(s[i]),
    decreases s.len(),
{
    reveal(Seq::filter);
    if i == s.len() - 1 {
        assert(s.drop_last().push(s.last()) =~= s);
    } else {
        lemma_filter_keeps_member(s.drop_last(), pred, i);
        let f = s.drop_last().filter(pred);
        let j = choose|j: int| 0 <= j < f.len() && f[j] == s[i];
        if pred(s.last()) {
            assert(s.filter(pred)[j] == s[i]);
        } else {
            assert(s.filter(pred)[j] == s[i]);
        }
    }
}

/// The lobby one committed match materializes: the match's participants
/// split sequentially over the queue's team sizes, forming (or, when the
/// runner auto-dispatches, already dispatched), stamped with the queue's
/// name as its origin and game mode.
pub open spec fn committed_lobby(
    id: u128,
    mid: u128,
    selected: Seq<crate::entry::EntryView>,
    sizes: Seq<usize>,
    qname: Seq<char>,
    auto: bool,
    now_ms: i64,
) -> LobbyView {
    LobbyView {
        id: id,
        match_id: mid,
        state: if auto {
            LobbyState::Dispatched
        } else {
            LobbyState::Forming
        },
        teams: crate::lobby::sequential_teams(
            crate::lobby::entries_flat_players(selected),
            sizes,
        ),
        player_ids: crate::lobby::entries_flat_players(selected),
        ready_players: Seq::empty(),
        created_at: now_ms,
        metadata: crate::lobby::LobbyMetadataView {
            queue_name: qname,
            game_mode: Some(qname),
            map_name: None,
            server_id: None,
            custom: Seq::empty(),
        },
    }
}

/// One commit's effect on the store: under some lobby and match id the
/// committed lobby has been saved, the matched participants' stored
/// queue entries are gone, and ratings, parties and history are
/// untouched.
pub open spec fn commit_step(
    pre: StoreView,
    post: StoreView,
    selected: Seq<crate::entry::EntryView>,
    sizes: Seq<usize>,
    qname: Seq<char>,
    auto: bool,
    now_ms: i64,
) -> bool {
    exists|id: u128, mid: u128|
        post == (StoreView {
            lobbies: pre.lobbies.insert(
                id,
                #[trigger] committed_lobby(id, mid, selected, sizes, qname, auto, now_ms),
            ),
            entries: pre.entries.filter(
                |e: crate::entry::EntryView| !crate::queue_manager::shares_players(
                    e,
                    crate::lobby::entries_flat_players(selected),
                ),
            ),
            ..pre
        })
}

/// The chained store effect of committing each emitted match in order.
pub open spec fn committed_stores(
    pre: StoreView,
    post: StoreView,
    scans: Seq<crate::matcher::ScanState>,
    sizes: Seq<usize>,
    qname: Seq<char>,
    auto: bool,
    now_ms: i64,
) -> bool
    decreases scans.len(),
{
    if scans.len() == 0 {
        post == pre
    } else {
        exists|mid_store: StoreView|
            #[trigger] commit_step(pre, mid_store, scans[0].selected, sizes, qname, auto, now_ms)
                && committed_stores(
                mid_store,
                post,
                scans.drop_first(),
                sizes,
                qname,
                auto,
                now_ms,
            )
    }
}

/// Committing one more match extends the chain at its end.
proof fn lemma_committed_snoc(
    pre: StoreView,
    mid: StoreView,
    post: StoreView,
    scans: Seq<crate::matcher::ScanState>,
    st: crate::matcher::ScanState,
    sizes: Seq<usize>,
    qname: Seq<char>,
    auto: bool,
    now_ms: i64,
)
    requires
        committed_stores(pre, mid, scans, sizes, qname, auto, now_ms),
        commit_step(mid, post, st.selected, sizes, qname, auto, now_ms),
    ensures
        committed_stores(pre, post, scans.push(st), sizes, qname, auto, now_ms),
    decreases scans.len(),
{
    assert(scans.push(st).len() > 0);
    if scans.len() == 0 {
        assert(mid == pre);
        assert(scans.push(st)[0] == st);
        assert(scans.push(st).drop_first() =~= Seq::<crate::matcher::ScanState>::empty());
        assert(commit_step(pre, post, scans.push(st)[0].selected, sizes, qname, auto, now_ms));
        assert(committed_stores(
            post,
            post,
            scans.push(st).drop_first(),
            sizes,
            qname,
            auto,
            now_ms,
        ));
    } else {
        let m0 = choose|m0: StoreView|
            #[trigger] commit_step(pre, m0, scans[0].selected, sizes, qname, auto, now_ms)
                && committed_stores(m0, mid, scans.drop_first(), sizes, qname, auto, now_ms);
        lemma_committed_snoc(m0, mid, post, scans.drop_first(), st, sizes, qname, auto, now_ms);
        assert(scans.push(st)[0] == scans[0]);
        assert(scans.push(st).drop_first() =~= scans.drop_first().push(st));
        assert(commit_step(pre, m0, scans.push(st)[0].selected, sizes, qname, auto, now_ms));
        assert(committed_stores(
            m0,
            post,
            scans.push(st).drop_first(),
            sizes,
            qname,
            auto,
            now_ms,
        ));
    }
}

/// A change that keeps every queue's name (and in particular one that
/// touches only the named queue's entry list) keeps the queue's index.
proof fn lemma_queue_index_stable(
    before: Seq<crate::queue_manager::QueueView>,
    after: Seq<crate::queue_manager::QueueView>,
    name: Seq<char>,
)
    requires
        after.len() == before.len(),
        forall|j: int| 0 <= j < before.len() ==> (#[trigger] after[j]).config.name == before[
            j
        ].config.name,
    ensures
        queue_index(after, name) == queue_index(before, name),
    decreases before.len(),
{
    if before.len() > 0 {
        assert(forall|j: int| 0 <= j < before.drop_first().len()
            ==> #[trigger] before.drop_first()[j] == before[j + 1]);
        assert(forall|j: int| 0 <= j < after.drop_first().len()
            ==> #[trigger] after.drop_first()[j] == after[j + 1]);
        lemma_queue_index_stable(before.drop_first(), after.drop_first(), name);
    }
}

/// The tick ordering over queues: ascending priority, ties broken by the
/// name's character sequence.
pub open spec fn tick_le(pa: u8, na: Seq<char>, pb: u8, nb: Seq<char>) -> bool {
    pa < pb || (pa == pb && lex_le(na, nb))
}

/// Lexicographic order over character sequences.
pub open spec fn lex_le(a: Seq<char>, b: Seq<char>) -> bool
    decreases a.len(),
{
    if a.len() == 0 {
        true
    } else if b.len() == 0 {
        false
    } else if (a[0] as u32) == (b[0] as u32) {
        lex_le(a.drop_first(), b.drop_first())
    } else {
        (a[0] as u32) < (b[0] as u32)
    }
}

/// Whether a pair list is sorted by the tick ordering.
pub open spec fn sorted_by_priority(pairs: Seq<(String, QueueRunnerConfig)>) -> bool {
    forall|i: int, j: int|
        0 <= i < j < pairs.len() ==> tick_le(
            (#[trigger] pairs[i]).1.priority,
            pairs[i].0@,
            (#[trigger] pairs[j]).1.priority,
            pairs[j].0@,
        )
}

/// Strict tick order between two queue settings: earlier priority, or the
/// same priority and a strictly earlier name.
fn tick_order_before(a: &(String, QueueRunnerConfig), b: &(String, QueueRunnerConfig)) -> (r: bool)
    ensures
        r ==> tick_le(a.1.priority, a.0@, b.1.priority, b.0@),
        !r ==> tick_le(b.1.priority, b.0@, a.1.priority, a.0@),
{
    if a.1.priority < b.1.priority {
        proof {
            lemma_lex_total(b.0@, a.0@);
        }
        return true;
    }
    if a.1.priority > b.1.priority {
        proof {
            lemma_lex_total(a.0@, b.0@);
        }
        return false;
    }
    lex_less(&a.0, &b.0)
}

/// Strict lexicographic comparison of two names.
fn lex_less(a: &String, b: &String) -> (r: bool)
    ensures
        r ==> lex_le(a@, b@),
        !r ==> lex_le(b@, a@),
{
    proof {
        lemma_lex_total(a@, b@);
    }
    if lex_le_exec(a, b) {
        !lex_le_exec(b, a)
    } else {
        false
    }
}

/// Executable check of `lex_le` over the characters of two names.
fn lex_le_exec(a: &String, b: &String) -> (r: bool)
    ensures
        r == lex_le(a@, b@),
{
    let av: Vec<char> = collect_chars(a);
    let bv: Vec<char> = collect_chars(b);
    let mut i: usize = 0;
    proof {
        assert(a@.skip(0) =~= a@);
        assert(b@.skip(0) =~= b@);
    }
    loop
        invariant
            i <= av@.len(),
            i <= bv@.len(),
            av@ == a@,
            bv@ == b@,
            lex_le(a@, b@) == lex_le(a@.skip(i as int), b@.skip(i as int)),
        decreases av@.len() - i,
    {
        if i >= av.len() {
            proof {
                assert(a@.skip(i as int).len() == 0);
            }
            return true;
        }
        if i >= bv.len() {
            proof {
                assert(b@.skip(i as int).len() == 0 && a@.skip(i as int).len() > 0);
            }
            return false;
        }
        let ca = av[i];
        let cb = bv[i];
        if (ca as u32) != (cb as u32) {
            proof {
                assert(a@.skip(i as int)[0] == ca && b@.skip(i as int)[0] == cb);
            }
            return (ca as u32) < (cb as u32);
        }
        proof {
            assert(a@.skip(i as int)[0] == ca && b@.skip(i as int)[0] == cb);
            assert(a@.skip(i as int).drop_first() =~= a@.skip(i + 1));
            assert(b@.skip(i as int).drop_first() =~= b@.skip(i + 1));
        }
        i += 1;
    }
}

/// The characters of a string, as a vector.
fn collect_chars(s: &String) -> (r: Vec<char>)
    ensures
        r@ == s@,
{
    let n: usize = s.as_str().unicode_len();
    let mut r: Vec<char> = Vec::new();
    let mut i: usize = 0;
    while i < n
        invariant
            i <= n,
            n == s@.len(),
            r@ =~= s@.subrange(0, i as int),
        decreases n - i,
    {
        let c = s.as_str().get_char(i);
        r.push(c);
        i += 1;
    }
    proof {
        assert(r@ =~= s@);
    }
    r
}

/// `lex_le` only looks past a common prefix.
/// The lexicographic order is total: two names are always comparable.
proof fn lemma_lex_total(a: Seq<char>, b: Seq<char>)
    ensures
        lex_le(a, b) || lex_le(b, a),
    decreases a.len(),
{
    if a.len() > 0 && b.len() > 0 && (a[0] as u32) == (b[0] as u32) {
        lemma_lex_total(a.drop_first(), b.drop_first());
    }
}

/// Inserting at the scanned position keeps the pair list sorted.
proof fn lemma_tick_insert_sorted(
    before: Seq<(String, QueueRunnerConfig)>,
    after: Seq<(String, QueueRunnerConfig)>,
    pos: int,
)
    requires
        sorted_by_priority(before),
        0 <= pos <= before.len(),
        after == before.insert(pos, after[pos]),
        forall|k: int| pos <= k < before.len() ==> tick_le(
            after[pos].1.priority,
            after[pos].0@,
            (#[trigger] before[k]).1.priority,
            before[k].0@,
        ),
        pos > 0 ==> tick_le(
            before[pos - 1].1.priority,
            before[pos - 1].0@,
            after[pos].1.priority,
            after[pos].0@,
        ),
    ensures
        sorted_by_priority(after),
{
    assert forall|k: int| 0 <= k < pos implies tick_le(
        (#[trigger] before[k]).1.priority,
        before[k].0@,
        after[pos].1.priority,
        after[pos].0@,
    ) by {
        if k < pos - 1 {
            lemma_tick_trans(
                before[k].1.priority,
                before[k].0@,
                before[pos - 1].1.priority,
                before[pos - 1].0@,
                after[pos].1.priority,
                after[pos].0@,
            );
        }
    }
    assert forall|i: int, j: int|
        0 <= i < j < after.len() implies tick_le(
        (#[trigger] after[i]).1.priority,
        after[i].0@,
        (#[trigger] after[j]).1.priority,
        after[j].0@,
    ) by {
        if i < pos {
            assert(after[i] == before[i]);
        }
        if j < pos {
            assert(after[j] == before[j]);
        } else if j > pos {
            assert(after[j] == before[j - 1]);
        }
        if i > pos {
            assert(after[i] == before[i - 1]);
        }
        if i < pos && j > pos {
            lemma_tick_trans(
                before[i].1.priority,
                before[i].0@,
                after[pos].1.priority,
                after[pos].0@,
                before[j - 1].1.priority,
                before[j - 1].0@,
            );
        }
    }
}

/// The tick ordering is transitive.
proof fn lemma_tick_trans(pa: u8, na: Seq<char>, pb: u8, nb: Seq<char>, pc: u8, nc: Seq<char>)
    requires
        tick_le(pa, na, pb, nb),
        tick_le(pb, nb, pc, nc),
    ensures
        tick_le(pa, na, pc, nc),
{
    if pa == pb && pb == pc {
        lemma_lex_trans(na, nb, nc);
    }
}

/// Lexicographic order is transitive.
proof fn lemma_lex_trans(a: Seq<char>, b: Seq<char>, c: Seq<char>)
    requires
        lex_le(a, b),
        lex_le(b, c),
    ensures
        lex_le(a, c),
    decreases a.len() + b.len() + c.len(),
{
    if a.len() > 0 && b.len() > 0 && c.len() > 0 {
        if (a[0] as u32) == (b[0] as u32) && (b[0] as u32) == (c[0] as u32) {
            lemma_lex_trans(a.drop_first(), b.drop_first(), c.drop_first());
        }
    }
}

} // verus!

verus! {

use crate::lobby::{mark_ready_spec, LobbyMetadataView};

/// How often a lobby id occurs in the match history.
pub open spec fn history_count(history: Seq<LobbyView>, lobby_id: u128) -> int
    decreases history.len(),
{
    if history.len() == 0 {
        0
    } else {
        history_count(history.drop_last(), lobby_id) + if history.last().id == lobby_id {
            1int
        } else {
            0int
        }
    }
}

/// A history without the lobby counts it zero times.
proof fn lemma_history_count_absent(history: Seq<LobbyView>, lobby_id: u128)
    requires
        forall|k: int| 0 <= k < history.len() ==> (#[trigger] history[k]).id != lobby_id,
    ensures
        history_count(history, lobby_id) == 0,
    decreases history.len(),
{
    if history.len() > 0 {
        assert(forall|k: int| 0 <= k < history.drop_last().len() ==> history.drop_last()[k]
            == #[trigger] history[k]);
        lemma_history_count_absent(history.drop_last(), lobby_id);
        assert(history.last() == history[history.len() - 1]);
    }
}

/// A closed lobby re-appears in the match history exactly once: closing
/// appends one history row, so a lobby id that the history did not hold
/// before is counted exactly once afterwards.
pub proof fn lemma_forced_close_records_once(history: Seq<LobbyView>, closed: LobbyView)
    requires
        forall|k: int| 0 <= k < history.len() ==> (#[trigger] history[k]).id != closed.id,
    ensures
        history_count(history.push(closed), closed.id) == 1,
{
    lemma_history_count_absent(history, closed.id);
    assert(history.push(closed).drop_last() =~= history);
}

/// Whether the outcome list reports the pair `(q, oc)`.
pub open spec fn outcome_listed(outcomes: Seq<(u128, Outcome)>, q: u128, oc: Outcome) -> bool {
    exists|a: int| 0 <= a < outcomes.len() && #[trigger] outcomes[a] == (q, oc)
}

/// Whether the lobby fields `p` and `q` on two different teams.
#[verifier::opaque]
pub open spec fn cross_team(lobby: LobbyView, p: u128, q: u128) -> bool {
    exists|ta: usize, tb: usize|
        #![trigger lobby_team_of(lobby, p, ta), lobby_team_of(lobby, q, tb)]
        lobby_team_of(lobby, p, ta) && lobby_team_of(lobby, q, tb) && ta != tb
}

/// Whether `new` is a legitimate post-match rating for `q`: some reported
/// opponent on another team of the lobby, both ratings read from the
/// pre-call snapshot (clamped into the representation bounds), folded
/// through the updater with `q`'s reported outcome.
#[verifier::opaque]
pub open spec fn snapshot_cross_update<A: MmrAlgorithm>(
    snapshot: Map<u128, Rating>,
    lobby: LobbyView,
    outcomes: Seq<(u128, Outcome)>,
    alg: A,
    q: u128,
    new: Rating,
) -> bool {
    exists|a: int, b: int|
        #![trigger outcomes[a], outcomes[b]]
        {
            &&& 0 <= a < outcomes.len()
            &&& 0 <= b < outcomes.len()
            &&& outcomes[a].0 == q
            &&& snapshot.contains_key(q)
            &&& snapshot.contains_key(outcomes[b].0)
            &&& cross_team(lobby, q, outcomes[b].0)
            &&& new == alg.update_spec(
                clamp_rating_spec(snapshot[q]),
                clamp_rating_spec(snapshot[outcomes[b].0]),
                outcomes[a].1,
            )
        }
}

/// The rating map after the first `w` computed updates are written, in
/// order.
pub open spec fn apply_updates(
    snapshot: Map<u128, Rating>,
    updates: Seq<(u128, Rating)>,
    w: int,
) -> Map<u128, Rating>
    decreases w,
{
    if w <= 0 {
        snapshot
    } else {
        apply_updates(snapshot, updates, w - 1).insert(updates[w - 1].0, updates[w - 1].1)
    }
}

/// After writing updates that all satisfy `good`, every stored rating is
/// either its snapshot value or a `good` value.
proof fn lemma_apply_updates_sound(
    snapshot: Map<u128, Rating>,
    updates: Seq<(u128, Rating)>,
    w: int,
    good: spec_fn(u128, Rating) -> bool,
)
    requires
        0 <= w <= updates.len(),
        forall|u: int| 0 <= u < updates.len() ==> good((#[trigger] updates[u]).0, updates[u].1),
    ensures
        forall|q: u128|
            #![trigger apply_updates(snapshot, updates, w).contains_key(q)]
            apply_updates(snapshot, updates, w).contains_key(q) ==> {
                ||| (snapshot.contains_key(q) && apply_updates(snapshot, updates, w)[q]
                    == snapshot[q])
                ||| good(q, apply_updates(snapshot, updates, w)[q])
            },
    decreases w,
{
    if w > 0 {
        lemma_apply_updates_sound(snapshot, updates, w - 1, good);
        let prev = apply_updates(snapshot, updates, w - 1);
        let cur = apply_updates(snapshot, updates, w);
        assert(good(updates[w - 1].0, updates[w - 1].1));
        assert forall|q: u128|
            #[trigger] cur.contains_key(q) implies {
            ||| (snapshot.contains_key(q) && cur[q] == snapshot[q])
            ||| good(q, cur[q])
        } by {
            if q == updates[w - 1].0 {
                assert(cur[q] == updates[w - 1].1);
            } else {
                assert(cur[q] == prev[q] && prev.contains_key(q));
            }
        }
    }
}

/// Whether the outcome list reports `q`, `q` has a stored rating, and the
/// lobby fields `q` on some team: the conditions under which outcome
/// integration owes `q` an update once a cross-team opponent is reported.
#[verifier::opaque]
pub open spec fn reported_with_team(
    snapshot: Map<u128, Rating>,
    lobby: LobbyView,
    outcomes: Seq<(u128, Outcome)>,
    q: u128,
) -> bool {
    &&& exists|a: int| 0 <= a < outcomes.len() && (#[trigger] outcomes[a]).0 == q
    &&& snapshot.contains_key(q)
    &&& exists|t: usize| lobby_team_of(lobby, q, t)
}

/// Whether some reported participant with a stored rating stands on a
/// team of the lobby other than `q`'s.
#[verifier::opaque]
pub open spec fn has_cross_opponent(
    snapshot: Map<u128, Rating>,
    lobby: LobbyView,
    outcomes: Seq<(u128, Outcome)>,
    q: u128,
) -> bool {
    exists|b: int|
        0 <= b < outcomes.len() && snapshot.contains_key((#[trigger] outcomes[b]).0) && (
        exists|t: usize| lobby_team_of(lobby, outcomes[b].0, t)) && cross_team(
            lobby,
            q,
            outcomes[b].0,
        )
}

/// In a well-formed lobby a participant's team label is unique.
proof fn lemma_unique_team_label(lobby: LobbyView, q: u128, ta: usize, tb: usize)
    requires
        lobby.wf(),
        lobby_team_of(lobby, q, ta),
        lobby_team_of(lobby, q, tb),
    ensures
        ta == tb,
{
    let k1 = choose|k1: int|
        0 <= k1 < lobby.teams.len() && (#[trigger] lobby.teams[k1]).team_id == ta
            && lobby.teams[k1].player_ids.contains(q);
    let k2 = choose|k2: int|
        0 <= k2 < lobby.teams.len() && (#[trigger] lobby.teams[k2]).team_id == tb
            && lobby.teams[k2].player_ids.contains(q);
    if k1 < k2 {
        crate::lobby::lemma_no_player_in_two_teams(lobby, k1, k2, q);
    } else if k2 < k1 {
        crate::lobby::lemma_no_player_in_two_teams(lobby, k2, k1, q);
    }
}

/// Once some update names `q`, the written map holds `q` at one of the
/// named values.
proof fn lemma_apply_updates_written(
    snapshot: Map<u128, Rating>,
    updates: Seq<(u128, Rating)>,
    w: int,
    q: u128,
)
    requires
        0 <= w <= updates.len(),
        exists|u: int| 0 <= u < w && (#[trigger] updates[u]).0 == q,
    ensures
        apply_updates(snapshot, updates, w).contains_key(q),
        exists|u: int|
            0 <= u < w && (#[trigger] updates[u]).0 == q && apply_updates(snapshot, updates, w)[q]
                == updates[u].1,
    decreases w,
{
    let u0 = choose|u0: int| 0 <= u0 < w && (#[trigger] updates[u0]).0 == q;
    if updates[w - 1].0 == q {
        assert(apply_updates(snapshot, updates, w)[q] == updates[w - 1].1);
    } else {
        assert(u0 < w - 1);
        lemma_apply_updates_written(snapshot, updates, w - 1, q);
        let u1 = choose|u1: int|
            0 <= u1 < w - 1 && (#[trigger] updates[u1]).0 == q && apply_updates(
                snapshot,
                updates,
                w - 1,
            )[q] == updates[u1].1;
        assert(apply_updates(snapshot, updates, w)[q] == updates[u1].1);
    }
}

/// The integration argument in one place: with unique team labels (a
/// well-formed lobby), a complete participant collection and one update
/// per cross-labelled pair, every reported participant with a stored
/// rating and a reported cross-team opponent ends up written with a
/// snapshot cross-update.
proof fn lemma_outcomes_integrated<A: MmrAlgorithm>(
    snapshot: Map<u128, Rating>,
    stored: LobbyView,
    outcomes: Seq<(u128, Outcome)>,
    parts: Seq<(u128, usize, Rating, Outcome)>,
    updates: Seq<(u128, Rating)>,
    alg: A,
    written: Map<u128, Rating>,
)
    requires
        stored.wf(),
        forall|j: int| 0 <= j < parts.len() ==> lobby_team_of(
            stored,
            (#[trigger] parts[j]).0,
            parts[j].1,
        ),
        forall|a: int|
            0 <= a < outcomes.len() && snapshot.contains_key((#[trigger] outcomes[a]).0) && (
            exists|t: usize| lobby_team_of(stored, outcomes[a].0, t)) ==> exists|j: int|
                0 <= j < parts.len() && (#[trigger] parts[j]).0 == outcomes[a].0,
        forall|x: int|
            0 <= x < parts.len() && (exists|y: int|
                0 <= y < parts.len() && (#[trigger] parts[y]).1 != parts[x].1) ==> exists|u: int|
                0 <= u < updates.len() && (#[trigger] updates[u]).0 == (#[trigger] parts[x]).0,
        forall|u: int| 0 <= u < updates.len() ==> snapshot_cross_update(
            snapshot,
            stored,
            outcomes,
            alg,
            (#[trigger] updates[u]).0,
            updates[u].1,
        ),
        written == apply_updates(snapshot, updates, updates.len() as int),
    ensures
        forall|q: u128|
            #[trigger] reported_with_team(snapshot, stored, outcomes, q) && has_cross_opponent(
                snapshot,
                stored,
                outcomes,
                q,
            ) ==> written.contains_key(q) && snapshot_cross_update(
                snapshot,
                stored,
                outcomes,
                alg,
                q,
                written[q],
            ),
{
    reveal(reported_with_team);
    reveal(has_cross_opponent);
    reveal(cross_team);
    reveal(snapshot_cross_update);
    assert forall|q: u128|
        #[trigger] reported_with_team(snapshot, stored, outcomes, q) && has_cross_opponent(
            snapshot,
            stored,
            outcomes,
            q,
        ) implies written.contains_key(q) && snapshot_cross_update(
        snapshot,
        stored,
        outcomes,
        alg,
        q,
        written[q],
    ) by {
        let a = choose|a: int| 0 <= a < outcomes.len() && (#[trigger] outcomes[a]).0 == q;
        assert(exists|j: int| 0 <= j < parts.len() && (#[trigger] parts[j]).0 == outcomes[a].0);
        let x = choose|x: int| 0 <= x < parts.len() && (#[trigger] parts[x]).0 == q;
        let b = choose|b: int|
            0 <= b < outcomes.len() && snapshot.contains_key((#[trigger] outcomes[b]).0) && (
            exists|t: usize| lobby_team_of(stored, outcomes[b].0, t)) && cross_team(
                stored,
                q,
                outcomes[b].0,
            );
        let o = outcomes[b].0;
        assert(exists|j: int| 0 <= j < parts.len() && (#[trigger] parts[j]).0 == outcomes[b].0);
        let y = choose|y: int| 0 <= y < parts.len() && (#[trigger] parts[y]).0 == o;
        let (ta, tb) = choose|ta: usize, tb: usize|
            #![trigger lobby_team_of(stored, q, ta), lobby_team_of(stored, o, tb)]
            lobby_team_of(stored, q, ta) && lobby_team_of(stored, o, tb) && ta != tb;
        lemma_unique_team_label(stored, q, ta, parts[x].1);
        lemma_unique_team_label(stored, o, tb, parts[y].1);
        assert(parts[y].1 != parts[x].1);
        assert(exists|y2: int| 0 <= y2 < parts.len() && (#[trigger] parts[y2]).1 != parts[x].1);
        assert(exists|u: int| 0 <= u < updates.len() && (#[trigger] updates[u]).0 == q);
        lemma_apply_updates_written(snapshot, updates, updates.len() as int, q);
        let u = choose|u: int|
            0 <= u < updates.len() && (#[trigger] updates[u]).0 == q && apply_updates(
                snapshot,
                updates,
                updates.len() as int,
            )[q] == updates[u].1;
        assert(snapshot_cross_update(snapshot, stored, outcomes, alg, updates[u].0, updates[u].1));
    }
}

/// Drives stored lobbies through readiness, dispatch, close and outcome
/// integration. Stateless: every operation reads and writes the lobby
/// through the persistence port handed in.
pub struct LobbyManager {
}

impl LobbyManager {
    /// A lobby manager.
    pub fn new() -> (m: LobbyManager) {
        LobbyManager {  }
    }

    /// Looks a stored lobby up.
    pub fn get_lobby<P: PersistenceAdapter>(&self, persistence: &P, lobby_id: u128) -> (r: Result<
        Option<Lobby>,
        MatchForgeError,
    >)
        ensures
            match r {
                Ok(Some(l)) => persistence.state().lobbies.contains_key(lobby_id) && l@
                    == persistence.state().lobbies[lobby_id],
                Ok(None) => !persistence.state().lobbies.contains_key(lobby_id),
                Err(_) => true,
            },
    {
        persistence.load_lobby(lobby_id)
    }

    /// Marks a participant of a stored lobby ready and saves the lobby
    /// back; when the last participant reports ready while the lobby is
    /// waiting, the saved lobby is `Ready`. Marking twice changes nothing
    /// the second time.
    pub fn mark_player_ready<P: PersistenceAdapter>(
        &self,
        persistence: &mut P,
        lobby_id: u128,
        player_id: u128,
    ) -> (r: Result<(), MatchForgeError>)
        ensures
            match r {
                Ok(()) => {
                    let stored = old(persistence).state().lobbies[lobby_id];
                    &&& old(persistence).state().lobbies.contains_key(lobby_id)
                    &&& stored.id == lobby_id
                    &&& stored.player_ids.contains(player_id)
                    &&& final(persistence).state() == (StoreView {
                        lobbies: old(persistence).state().lobbies.insert(
                            lobby_id,
                            mark_ready_spec(stored, player_id),
                        ),
                        ..old(persistence).state()
                    })
                },
                Err(_) => final(persistence).state() == old(persistence).state(),
            },
            !old(persistence).state().lobbies.contains_key(lobby_id) ==> r is Err,
    {
        let mut lobby = match persistence.load_lobby(lobby_id) {
            Ok(Some(l)) => l,
            Ok(None) => {
                return Err(MatchForgeError::LobbyNotFound(lobby_id));
            },
            Err(e) => {
                return Err(e);
            },
        };
        if lobby.id != lobby_id {
            return Err(MatchForgeError::LobbyNotFound(lobby_id));
        }
        match lobby.mark_player_ready(player_id) {
            Ok(()) => {},
            Err(e) => {
                return Err(e);
            },
        }
        match persistence.save_lobby(&lobby) {
            Ok(()) => {},
            Err(e) => {
                return Err(e);
            },
        }
        Ok(())
    }

    /// Records the dispatched server in the lobby's metadata and moves the
    /// lobby from `Ready` to `Dispatched`, saving it back.
    pub fn dispatch_lobby<P: PersistenceAdapter>(
        &self,
        persistence: &mut P,
        lobby_id: u128,
        server_id: String,
    ) -> (r: Result<(), MatchForgeError>)
        ensures
            match r {
                Ok(()) => {
                    let stored = old(persistence).state().lobbies[lobby_id];
                    &&& old(persistence).state().lobbies.contains_key(lobby_id)
                    &&& stored.id == lobby_id
                    &&& stored.state == LobbyState::Ready
                    &&& final(persistence).state() == (StoreView {
                        lobbies: old(persistence).state().lobbies.insert(
                            lobby_id,
                            LobbyView {
                                state: LobbyState::Dispatched,
                                metadata: LobbyMetadataView {
                                    server_id: Some(server_id@),
                                    ..stored.metadata
                                },
                                ..stored
                            },
                        ),
                        ..old(persistence).state()
                    })
                },
                Err(_) => final(persistence).state() == old(persistence).state(),
            },
            !old(persistence).state().lobbies.contains_key(lobby_id) ==> r is Err,
    {
        let mut lobby = match persistence.load_lobby(lobby_id) {
            Ok(Some(l)) => l,
            Ok(None) => {
                return Err(MatchForgeError::LobbyNotFound(lobby_id));
            },
            Err(e) => {
                return Err(e);
            },
        };
        if lobby.id != lobby_id {
            return Err(MatchForgeError::LobbyNotFound(lobby_id));
        }
        lobby.metadata.server_id = Some(server_id);
        match lobby.transition_to(LobbyState::Dispatched) {
            Ok(()) => {},
            Err(e) => {
                return Err(e);
            },
        }
        proof {
            assert(lobby@ =~= (LobbyView {
                state: LobbyState::Dispatched,
                metadata: LobbyMetadataView {
                    server_id: lobby@.metadata.server_id,
                    ..old(persistence).state().lobbies[lobby_id].metadata
                },
                ..old(persistence).state().lobbies[lobby_id]
            }));
        }
        match persistence.save_lobby(&lobby) {
            Ok(()) => {},
            Err(e) => {
                return Err(e);
            },
        }
        Ok(())
    }

    /// Closes a stored lobby: moves it to `Closed` (allowed from any
    /// state), appends it to the immutable match history, and deletes the
    /// live record. The closed lobby is gone from the live table and
    /// stands in the history.
    pub fn close_lobby<P: PersistenceAdapter>(&self, persistence: &mut P, lobby_id: u128) -> (r:
        Result<(), MatchForgeError>)
        ensures
            match r {
                Ok(()) => {
                    let stored = old(persistence).state().lobbies[lobby_id];
                    let closed = LobbyView { state: LobbyState::Closed, ..stored };
                    &&& old(persistence).state().lobbies.contains_key(lobby_id)
                    &&& stored.id == lobby_id
                    &&& final(persistence).state() == (StoreView {
                        lobbies: old(persistence).state().lobbies.remove(lobby_id),
                        history: old(persistence).state().history.push(closed),
                        ..old(persistence).state()
                    })
                },
                // A refused close leaves the live table untouched: at
                // worst the history row was already appended before the
                // delete was refused.
                Err(_) => final(persistence).state() == old(persistence).state() || (old(
                    persistence,
                ).state().lobbies.contains_key(lobby_id) && final(persistence).state()
                    == (StoreView {
                    history: old(persistence).state().history.push(
                        LobbyView {
                            state: LobbyState::Closed,
                            ..old(persistence).state().lobbies[lobby_id]
                        },
                    ),
                    ..old(persistence).state()
                })),
            },
            !old(persistence).state().lobbies.contains_key(lobby_id) ==> r is Err,
    {
        let mut lobby = match persistence.load_lobby(lobby_id) {
            Ok(Some(l)) => l,
            Ok(None) => {
                return Err(MatchForgeError::LobbyNotFound(lobby_id));
            },
            Err(e) => {
                return Err(e);
            },
        };
        if lobby.id != lobby_id {
            return Err(MatchForgeError::LobbyNotFound(lobby_id));
        }
        match lobby.transition_to(LobbyState::Closed) {
            Ok(()) => {},
            Err(e) => {
                return Err(e);
            },
        }
        match persistence.save_match_result(&lobby) {
            Ok(()) => {},
            Err(e) => {
                return Err(e);
            },
        }
        match persistence.delete_lobby(lobby_id) {
            Ok(()) => {},
            Err(e) => {
                return Err(e);
            },
        }
        proof {
            assert(final(persistence).state() =~= (StoreView {
                lobbies: old(persistence).state().lobbies.remove(lobby_id),
                history: old(persistence).state().history.push(
                    LobbyView {
                        state: LobbyState::Closed,
                        ..old(persistence).state().lobbies[lobby_id]
                    },
                ),
                ..old(persistence).state()
            }));
        }
        Ok(())
    }

    /// Integrates reported outcomes into ratings: reported participants
    /// are grouped by their lobby team, every cross-team pairing is
    /// computed from the pre-call rating snapshot (never from an earlier
    /// write of the same call), and the new ratings are written back. On
    /// success every stored rating is either untouched or a snapshot-based
    /// cross-team update.
    #[verifier::rlimit(100)]
    #[verifier::spinoff_prover]
    pub fn update_ratings<P: PersistenceAdapter, A: MmrAlgorithm>(
        &self,
        persistence: &mut P,
        lobby_id: u128,
        outcomes: &Vec<(u128, Outcome)>,
        algorithm: &A,
    ) -> (r: Result<(), MatchForgeError>)
        ensures
            match r {
                Ok(()) => {
                    let snapshot = old(persistence).state().ratings;
                    let stored = old(persistence).state().lobbies[lobby_id];
                    &&& old(persistence).state().lobbies.contains_key(lobby_id)
                    &&& final(persistence).state().entries == old(persistence).state().entries
                    &&& final(persistence).state().parties == old(persistence).state().parties
                    &&& final(persistence).state().lobbies == old(persistence).state().lobbies
                    &&& final(persistence).state().history == old(persistence).state().history
                    &&& forall|q: u128|
                        final(persistence).state().ratings.contains_key(q) ==> {
                            ||| (snapshot.contains_key(q) && final(persistence).state().ratings[q]
                                == snapshot[q])
                            ||| snapshot_cross_update(
                                snapshot,
                                stored,
                                outcomes@,
                                *algorithm,
                                q,
                                final(persistence).state().ratings[q],
                            )
                        }
                    &&& (stored.wf() ==> forall|q: u128|
                        #[trigger] reported_with_team(snapshot, stored, outcomes@, q)
                            && has_cross_opponent(snapshot, stored, outcomes@, q)
                            ==> final(persistence).state().ratings.contains_key(q)
                            && snapshot_cross_update(
                            snapshot,
                            stored,
                            outcomes@,
                            *algorithm,
                            q,
                            final(persistence).state().ratings[q],
                        ))
                },
                // A refused call leaves everything but ratings exactly
                // as it was, and every rating it did write is still a
                // snapshot-based cross-team update.
                Err(_) => {
                    let snapshot = old(persistence).state().ratings;
                    &&& final(persistence).state().entries == old(persistence).state().entries
                    &&& final(persistence).state().parties == old(persistence).state().parties
                    &&& final(persistence).state().lobbies == old(persistence).state().lobbies
                    &&& final(persistence).state().history == old(persistence).state().history
                    &&& forall|q: u128|
                        final(persistence).state().ratings.contains_key(q) ==> {
                            ||| (snapshot.contains_key(q) && final(persistence).state().ratings[q]
                                == snapshot[q])
                            ||| (old(persistence).state().lobbies.contains_key(lobby_id)
                                && snapshot_cross_update(
                                snapshot,
                                old(persistence).state().lobbies[lobby_id],
                                outcomes@,
                                *algorithm,
                                q,
                                final(persistence).state().ratings[q],
                            ))
                        }
                },
            },
    {
        let lobby = match persistence.load_lobby(lobby_id) {
            Ok(Some(l)) => l,
            Ok(None) => {
                return Err(MatchForgeError::LobbyNotFound(lobby_id));
            },
            Err(e) => {
                return Err(e);
            },
        };
        let ghost snapshot = persistence.state().ratings;
        let ghost stored = persistence.state().lobbies[lobby_id];
        proof {
            assert(lobby@ == stored);
        }
        // Collect the reported participants that have a team and a stored
        // rating, with the snapshot rating clamped into the bounds.
        let mut parts: Vec<(u128, usize, Rating, Outcome)> = Vec::new();
        let mut k: usize = 0;
        while k < outcomes.len()
            invariant
                k <= outcomes@.len(),
                snapshot == persistence.state().ratings,
                stored == lobby@,
                forall|j: int| 0 <= j < parts@.len() ==> {
                    let part = #[trigger] parts@[j];
                    &&& snapshot.contains_key(part.0)
                    &&& part.2 == clamp_rating_spec(snapshot[part.0])
                    &&& part.2.wf()
                    &&& lobby_team_of(stored, part.0, part.1)
                    &&& outcome_listed(outcomes@, part.0, part.3)
                },
                forall|a: int|
                    0 <= a < k && snapshot.contains_key((#[trigger] outcomes@[a]).0) && (
                    exists|t: usize| lobby_team_of(stored, outcomes@[a].0, t)) ==> exists|j: int|
                        0 <= j < parts@.len() && (#[trigger] parts@[j]).0 == outcomes@[a].0,
            decreases outcomes@.len() - k,
        {
            let pid: u128 = outcomes[k].0;
            let oc: Outcome = outcomes[k].1;
            let ghost prev = parts@;
            match lobby.get_player_team(pid) {
                Some(team) => {
                    // A load the store refuses fails the whole call: a
                    // silently skipped participant would break the
                    // promise that every reported cross-team pairing is
                    // integrated.
                    match persistence.load_player_rating(pid) {
                        Ok(Some(found)) => {
                            let clamped = Rating::new(
                                found.rating,
                                found.deviation,
                                found.volatility,
                            );
                            parts.push((pid, team, clamped, oc));
                            proof {
                                assert(outcomes@[k as int] == (pid, oc));
                                assert(outcome_listed(outcomes@, pid, oc));
                                assert(forall|j: int| 0 <= j < prev.len() ==> parts@[j]
                                    == #[trigger] prev[j]);
                                assert(parts@[parts@.len() - 1].0 == pid);
                            }
                        },
                        Ok(None) => {},
                        Err(e) => {
                            return Err(e);
                        },
                    }
                },
                None => {},
            }
            proof {
                assert forall|a: int|
                    0 <= a < k + 1 && snapshot.contains_key((#[trigger] outcomes@[a]).0) && (
                exists|t: usize| lobby_team_of(stored, outcomes@[a].0, t)) implies exists|j: int|
                    0 <= j < parts@.len() && (#[trigger] parts@[j]).0 == outcomes@[a].0 by {
                    if a < k {
                        let j0 = choose|j0: int|
                            0 <= j0 < prev.len() && (#[trigger] prev[j0]).0 == outcomes@[a].0;
                        assert(parts@[j0].0 == outcomes@[a].0);
                    } else {
                        assert(outcomes@[a].0 == pid);
                        assert(parts@[parts@.len() - 1].0 == pid);
                    }
                }
            }
            k += 1;
        }
        // Compute every cross-team update from the snapshot, before any
        // write.
        let mut updates: Vec<(u128, Rating)> = Vec::new();
        let mut i: usize = 0;
        while i < parts.len()
            invariant
                i <= parts@.len(),
                snapshot == persistence.state().ratings,
                forall|j: int| 0 <= j < parts@.len() ==> {
                    let part = #[trigger] parts@[j];
                    &&& snapshot.contains_key(part.0)
                    &&& part.2 == clamp_rating_spec(snapshot[part.0])
                    &&& part.2.wf()
                    &&& lobby_team_of(stored, part.0, part.1)
                    &&& outcome_listed(outcomes@, part.0, part.3)
                },
                forall|u: int| 0 <= u < updates@.len() ==> snapshot_cross_update(
                    snapshot,
                    stored,
                    outcomes@,
                    *algorithm,
                    (#[trigger] updates@[u]).0,
                    updates@[u].1,
                ),
                forall|x: int|
                    0 <= x < i && (exists|y: int|
                        0 <= y < parts@.len() && (#[trigger] parts@[y]).1 != parts@[x].1)
                        ==> exists|u: int|
                        0 <= u < updates@.len() && (#[trigger] updates@[u]).0 == (
                        #[trigger] parts@[x]).0,
            decreases parts@.len() - i,
        {
            let mut j: usize = 0;
            while j < parts.len()
                invariant
                    i < parts@.len(),
                    j <= parts@.len(),
                    snapshot == persistence.state().ratings,
                    forall|j2: int| 0 <= j2 < parts@.len() ==> {
                        let part = #[trigger] parts@[j2];
                        &&& snapshot.contains_key(part.0)
                        &&& part.2 == clamp_rating_spec(snapshot[part.0])
                        &&& part.2.wf()
                        &&& lobby_team_of(stored, part.0, part.1)
                        &&& outcome_listed(outcomes@, part.0, part.3)
                    },
                    forall|u: int| 0 <= u < updates@.len() ==> snapshot_cross_update(
                        snapshot,
                        stored,
                        outcomes@,
                        *algorithm,
                        (#[trigger] updates@[u]).0,
                        updates@[u].1,
                    ),
                    forall|x: int|
                        0 <= x < i && (exists|y: int|
                            0 <= y < parts@.len() && (#[trigger] parts@[y]).1 != parts@[x].1)
                            ==> exists|u: int|
                            0 <= u < updates@.len() && (#[trigger] updates@[u]).0 == (
                            #[trigger] parts@[x]).0,
                    (exists|y: int|
                        0 <= y < j && (#[trigger] parts@[y]).1 != parts@[i as int].1) ==> exists|
                        u: int,
                    |
                        0 <= u < updates@.len() && (#[trigger] updates@[u]).0 == parts@[
                            i as int
                        ].0,
                decreases parts@.len() - j,
            {
                if parts[i].1 != parts[j].1 {
                    let me = parts[i];
                    let opp = parts[j];
                    let new_rating = algorithm.calculate_new_rating(me.2, opp.2, me.3);
                    let ghost prev = updates@;
                    updates.push((me.0, new_rating));
                    proof {
                        assert(forall|u: int| 0 <= u < prev.len() ==> updates@[u] == #[trigger]
                            prev[u]);
                        let a = choose|a: int|
                            0 <= a < outcomes@.len() && #[trigger] outcomes@[a] == (me.0, me.3);
                        let b = choose|b: int|
                            0 <= b < outcomes@.len() && #[trigger] outcomes@[b] == (opp.0, opp.3);
                        assert(cross_team(stored, me.0, opp.0)) by {
                            reveal(cross_team);
                            assert(lobby_team_of(stored, me.0, me.1) && lobby_team_of(
                                stored,
                                opp.0,
                                opp.1,
                            ) && me.1 != opp.1);
                        }
                        assert(snapshot_cross_update(
                            snapshot,
                            stored,
                            outcomes@,
                            *algorithm,
                            me.0,
                            new_rating,
                        )) by {
                            reveal(snapshot_cross_update);
                            assert(outcomes@[a].0 == me.0 && outcomes@[a].1 == me.3);
                            assert(outcomes@[b].0 == opp.0);
                        }
                        assert(updates@[updates@.len() - 1].0 == parts@[i as int].0);
                    }
                }
                j += 1;
            }
            i += 1;
        }
        // Write the new ratings back; a failure surfaces to the caller
        // and already-written updates stand (callers retry idempotently).
        let ghost good = |q: u128, nr: Rating| snapshot_cross_update(
            snapshot,
            stored,
            outcomes@,
            *algorithm,
            q,
            nr,
        );
        let mut w: usize = 0;
        while w < updates.len()
            invariant
                w <= updates@.len(),
                persistence.state().entries == old(persistence).state().entries,
                persistence.state().parties == old(persistence).state().parties,
                persistence.state().lobbies == old(persistence).state().lobbies,
                persistence.state().history == old(persistence).state().history,
                snapshot == old(persistence).state().ratings,
                stored == old(persistence).state().lobbies[lobby_id],
                old(persistence).state().lobbies.contains_key(lobby_id),
                good == (|q: u128, nr: Rating| snapshot_cross_update(
                    snapshot,
                    stored,
                    outcomes@,
                    *algorithm,
                    q,
                    nr,
                )),
                forall|u: int| 0 <= u < updates@.len() ==> good(
                    (#[trigger] updates@[u]).0,
                    updates@[u].1,
                ),
                persistence.state().ratings == apply_updates(snapshot, updates@, w as int),
            decreases updates@.len() - w,
        {
            let pid = updates[w].0;
            let val = updates[w].1;
            match persistence.save_player_rating(pid, val) {
                Ok(()) => {},
                Err(e) => {
                    proof {
                        lemma_apply_updates_sound(snapshot, updates@, w as int, good);
                    }
                    return Err(e);
                },
            }
            w += 1;
        }
        proof {
            lemma_apply_updates_sound(snapshot, updates@, updates@.len() as int, good);
            if stored.wf() {
                lemma_outcomes_integrated(
                    snapshot,
                    stored,
                    outcomes@,
                    parts@,
                    updates@,
                    *algorithm,
                    persistence.state().ratings,
                );
            }
        }
        Ok(())
    }
}

} // verus!

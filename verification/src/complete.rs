//! Run completion: storing results, generation accounting, and waking
//! long-poll waiters; and the clean-check that decides whether a dirty cached
//! value may be trusted again.

use vstd::prelude::*;

use crate::entry::{bump, Entry, EntryState, PollWaiter};
use crate::node::{Item, NodeError};
use crate::request::{cached, done_of, GetOutcome};
use crate::Graph;

verus! {

/// What a completion call did.
#[derive(Debug)]
pub enum CompleteResult {
    /// The result was stored: the entry's generation afterwards, and whether
    /// the value was observed to have changed.
    Stored { generation: u64, changed: bool },
    /// The run's token was superseded while it was in flight (the entry was
    /// dirtied); the stale result is discarded and the entry still runs:
    /// invoke the runner again under `run_token`.
    RunAgain { run_token: u64 },
    /// The run's token is stale and no run is owed (the entry was cleared or
    /// a newer run finished); the result is discarded.
    Ignored,
}

/// What a clean-check resolution did.
#[derive(Debug)]
pub enum CleanOutcome {
    /// All recorded dependency generations still match and nothing
    /// uncacheable is involved: the entry is clean again and its existing
    /// value is handed back with its existing generation.
    Clean(Result<(Item, u64), NodeError>),
    /// Some input changed (or can never be trusted): a new run was started
    /// under `run_token`; invoke the runner.
    ReRun { run_token: u64 },
    /// The entry moved on since the check began (it was cleared or completed
    /// anew); request it again.
    Superseded,
}

/// A dependency that can never be trusted by a cache check: its node is
/// uncacheable, or its own value has uncacheable dependencies.
pub open spec fn dep_uncacheable(e: Entry) -> bool {
    !e.node.cacheable || e.has_uncacheable_deps()
}

impl Graph {
    /// The current generations of `id`'s recorded dependencies, in edge order.
    pub open spec fn current_dep_generations(self, id: usize) -> Seq<u64> {
        Graph::dep_ids_of(self.edges@, id).map_values(
            |d: usize| self.entries@[d as int].generation(),
        )
    }

    /// Some recorded dependency of `id` is uncacheable.
    pub open spec fn some_dep_uncacheable(self, id: usize) -> bool {
        exists|j: int|
            0 <= j < Graph::dep_ids_of(self.edges@, id).len() && dep_uncacheable(
                self.entries@[#[trigger] Graph::dep_ids_of(self.edges@, id)[j] as int],
            )
    }

    /// A dirty completed entry may be re-marked clean: its node is cacheable,
    /// the recorded dependency generations all match the current ones, and no
    /// dependency is uncacheable.
    pub open spec fn clean_eligible(self, id: usize) -> bool {
        match self.entries@[id as int].state {
            EntryState::Completed { dep_generations, .. } => {
                &&& self.entries@[id as int].node.cacheable
                &&& dep_generations@ == self.current_dep_generations(id)
                &&& !self.some_dep_uncacheable(id)
            },
            _ => false,
        }
    }

    /// Store the result of the run of `entry_id` identified by `run_token`.
    ///
    /// The dependency generations and the uncacheable-dependency flag are
    /// gathered from the entry's current outgoing edges; the generation is
    /// bumped exactly when the value changed (or the result is the
    /// invalidation error); poll waiters gated below the resulting generation
    /// fire. A completion whose token was superseded is discarded: while the
    /// entry still runs, the runner is owed another invocation under the
    /// current token; otherwise nothing is.
    pub fn complete(
        &mut self,
        entry_id: usize,
        run_token: u64,
        result: Result<Item, NodeError>,
    ) -> (r: CompleteResult)
        requires
            old(self).wf(),
            entry_id < old(self).entries@.len(),
        ensures
            final(self).wf(),
            Graph::advances(*old(self), *final(self)),
            final(self).entries@.len() == old(self).entries@.len(),
            final(self).draining == old(self).draining,
            final(self).edges == old(self).edges,
            old(self).woken@.is_prefix_of(final(self).woken@),
            (!old(self).entries@[entry_id as int].is_running()) ==> *final(self) == *old(self)
                && r is Ignored,
            (old(self).entries@[entry_id as int].is_running() && old(
                self,
            ).entries@[entry_id as int].run_token() != run_token) ==> *final(self) == *old(self)
                && r == (CompleteResult::RunAgain {
                run_token: old(self).entries@[entry_id as int].run_token(),
            }),
            (old(self).entries@[entry_id as int].is_running() && old(
                self,
            ).entries@[entry_id as int].run_token() == run_token) ==> {
                let e = old(self).entries@[entry_id as int];
                let changed = crate::entry::completion_changed(e.previous_result(), result);
                let gen = if changed {
                    bump(e.generation())
                } else {
                    e.generation()
                };
                &&& forall|i: int|
                    0 <= i < old(self).entries@.len() && i != entry_id ==> final(self).entries@[i] == old(self).entries@[i]
                &&& final(self).entries@[entry_id as int].node == e.node
                &&& final(self).entries@[entry_id as int].state matches EntryState::Completed {
                    run_token: t2,
                    generation: g2,
                    result: r2,
                    dep_generations: d2,
                    has_uncacheable_deps: u2,
                    dirty: dirty2,
                } && t2 == run_token && g2 == gen && r2 == result && d2@ == old(
                    self,
                ).current_dep_generations(entry_id) && u2 == old(self).some_dep_uncacheable(
                    entry_id,
                ) && dirty2 == false
                &&& r == (CompleteResult::Stored { generation: gen, changed })
                // Exactly the waiters gated below the resulting generation fire.
                &&& final(self).entries@[entry_id as int].poll_waiters@ == e.poll_waiters@.filter(
                    |w: PollWaiter| w.gate >= gen,
                )
                &&& final(self).woken@ == old(self).woken@ + e.poll_waiters@.filter(
                    |w: PollWaiter| w.gate < gen,
                ).map_values(|w: PollWaiter| w.waiter)
            },
    {
        if !self.entries[entry_id].running() {
            return CompleteResult::Ignored;
        }
        let t = self.entries[entry_id].current_run_token();
        if t != run_token {
            return CompleteResult::RunAgain { run_token: t };
        }
        let deps = self.dep_ids(entry_id);
        let mut gens: Vec<u64> = Vec::new();
        let mut unc: bool = false;
        let mut j: usize = 0;
        while j < deps.len()
            invariant
                self.wf(),
                entry_id < self.entries@.len(),
                j <= deps@.len(),
                deps@ == Graph::dep_ids_of(self.edges@, entry_id),
                forall|x: int| 0 <= x < deps@.len() ==> #[trigger] deps@[x] < self.entries@.len(),
                gens@.len() == j,
                forall|x: int|
                    0 <= x < j ==> #[trigger] gens@[x] == self.entries@[deps@[x] as int].generation(),
                unc == exists|x: int|
                    0 <= x < j && dep_uncacheable(self.entries@[(#[trigger] deps@[x]) as int]),
            decreases deps@.len() - j,
        {
            let dep = deps[j];
            gens.push(self.entries[dep].current_generation());
            let this_unc = !self.entries[dep].node.cacheable || self.entries[dep].unc_deps();
            proof {
                if this_unc {
                    assert(dep_uncacheable(self.entries@[deps@[j as int] as int]));
                }
                if !this_unc && !unc {
                    assert forall|x: int|
                        0 <= x < j + 1 implies !dep_uncacheable(
                        self.entries@[(#[trigger] deps@[x]) as int],
                    ) by {
                        if x < j {
                            assert(!(exists|y: int|
                                0 <= y < j && dep_uncacheable(
                                    self.entries@[(#[trigger] deps@[y]) as int],
                                )));
                        }
                    }
                }
            }
            if this_unc {
                unc = true;
            }
            j += 1;
        }
        proof {
            assert(gens@ =~= self.current_dep_generations(entry_id));
            assert(unc == self.some_dep_uncacheable(entry_id));
        }
        let changed = self.entries[entry_id].store_result(run_token, result, gens, unc);
        let gen = self.entries[entry_id].current_generation();
        let fired = self.entries[entry_id].take_waiters_below(gen);
        Graph::append_woken(&mut self.woken, &fired);
        proof {
            assert(self.woken@.subrange(0, old(self).woken@.len() as int) =~= old(self).woken@);
        }
        CompleteResult::Stored { generation: gen, changed }
    }

    /// Remove the recorded dependencies of `entry_id` if `run_token` is still
    /// its current token; a stale token changes nothing.
    pub fn clear_deps(&mut self, entry_id: usize, run_token: u64)
        requires
            old(self).wf(),
        ensures
            final(self).wf(),
            final(self).entries == old(self).entries,
            final(self).draining == old(self).draining,
            final(self).woken == old(self).woken,
            ((entry_id as int) < old(self).entries@.len() && old(
                self,
            ).entries@[entry_id as int].run_token() == run_token) ==> final(self).edges@ == old(
                self,
            ).edges@.filter(|e: (usize, usize)| e.0 != entry_id),
            !((entry_id as int) < old(self).entries@.len() && old(
                self,
            ).entries@[entry_id as int].run_token() == run_token) ==> final(self).edges == old(
                self,
            ).edges,
    {
        if entry_id >= self.entries.len() {
            return ;
        }
        if self.entries[entry_id].current_run_token() != run_token {
            return ;
        }
        self.remove_deps(entry_id);
    }

    /// Resolve a clean-check for `id` begun when its run token was
    /// `run_token`: the caller has refreshed the dependencies; compare their
    /// generations with the recorded ones and either re-mark the entry clean
    /// (its generation is not bumped) or start a re-run (dropping the
    /// recorded edges).
    pub fn resolve_clean_check(&mut self, id: usize, run_token: u64) -> (r: CleanOutcome)
        requires
            old(self).wf(),
            id < old(self).entries@.len(),
        ensures
            final(self).wf(),
            Graph::advances(*old(self), *final(self)),
            final(self).entries@.len() == old(self).entries@.len(),
            final(self).draining == old(self).draining,
            final(self).woken == old(self).woken,
            (!(old(self).entries@[id as int].state is Completed) || old(
                self,
            ).entries@[id as int].run_token() != run_token) ==> *final(self) == *old(self) && r
                is Superseded,
            (old(self).entries@[id as int].state is Completed && old(
                self,
            ).entries@[id as int].run_token() == run_token && old(self).clean_eligible(id)) ==> {
                &&& final(self).edges == old(self).edges
                &&& forall|i: int|
                    0 <= i < old(self).entries@.len() && i != id ==> final(self).entries@[i]
                        == old(self).entries@[i]
                &&& final(self).entries@[id as int].node == old(self).entries@[id as int].node
                &&& final(self).entries@[id as int].poll_waiters == old(
                    self,
                ).entries@[id as int].poll_waiters
                &&& !final(self).entries@[id as int].is_dirty()
                &&& final(self).entries@[id as int].state is Completed
                &&& final(self).entries@[id as int].generation() == old(
                    self,
                ).entries@[id as int].generation()
                &&& final(self).entries@[id as int].run_token() == run_token
                &&& match r {
                    CleanOutcome::Clean(d) => done_of(
                        cached(old(self).entries@[id as int]),
                        old(self).entries@[id as int].generation(),
                        GetOutcome::Done(d),
                    ),
                    _ => false,
                }
            },
            (old(self).entries@[id as int].state is Completed && old(
                self,
            ).entries@[id as int].run_token() == run_token && !old(self).clean_eligible(id)) ==> {
                &&& final(self).edges@ == old(self).edges@.filter(
                    |e: (usize, usize)| e.0 != id,
                )
                &&& forall|i: int|
                    0 <= i < old(self).entries@.len() && i != id ==> final(self).entries@[i]
                        == old(self).entries@[i]
                &&& final(self).entries@[id as int].node == old(self).entries@[id as int].node
                &&& final(self).entries@[id as int].poll_waiters == old(
                    self,
                ).entries@[id as int].poll_waiters
                &&& final(self).entries@[id as int].state == (EntryState::Running {
                    run_token: bump(run_token),
                    generation: old(self).entries@[id as int].generation(),
                    previous_result: Some(cached(old(self).entries@[id as int])),
                })
                &&& r == (CleanOutcome::ReRun { run_token: bump(run_token) })
            },
    {
        if !self.entries[id].completed() {
            return CleanOutcome::Superseded;
        }
        if self.entries[id].current_run_token() != run_token {
            return CleanOutcome::Superseded;
        }
        let deps = self.dep_ids(id);
        let cacheable = self.entries[id].node.cacheable;
        let len_ok = match &self.entries[id].state {
            EntryState::Completed { dep_generations, .. } => dep_generations.len() == deps.len(),
            _ => false,
        };
        let mut eligible = cacheable && len_ok;
        let mut j: usize = 0;
        while j < deps.len()
            invariant
                self.wf(),
                id < self.entries@.len(),
                self.entries@[id as int].state is Completed,
                j <= deps@.len(),
                deps@ == Graph::dep_ids_of(self.edges@, id),
                forall|x: int| 0 <= x < deps@.len() ==> #[trigger] deps@[x] < self.entries@.len(),
                eligible == (self.entries@[id as int].node.cacheable && (match self.entries@[id
                    as int].state {
                    EntryState::Completed { dep_generations, .. } => dep_generations@.len()
                        == deps@.len(),
                    _ => false,
                }) && (forall|x: int|
                    0 <= x < j ==> (match self.entries@[id as int].state {
                        EntryState::Completed { dep_generations, .. } => dep_generations@.len()
                            == deps@.len() && dep_generations@[x] == self.entries@[(
                        #[trigger] deps@[x]) as int].generation(),
                        _ => false,
                    })) && (forall|x: int|
                    0 <= x < j ==> !dep_uncacheable(
                        self.entries@[(#[trigger] deps@[x]) as int],
                    ))),
            decreases deps@.len() - j,
        {
            let dep = deps[j];
            let current = self.entries[dep].current_generation();
            let recorded_ok = match &self.entries[id].state {
                EntryState::Completed { dep_generations, .. } => {
                    if j < dep_generations.len() {
                        dep_generations[j] == current
                    } else {
                        false
                    }
                },
                _ => false,
            };
            let unc = !self.entries[dep].node.cacheable || self.entries[dep].unc_deps();
            if !recorded_ok || unc {
                eligible = false;
            }
            j += 1;
        }
        if eligible {
            proof {
                assert(self.clean_eligible(id)) by {
                    match self.entries@[id as int].state {
                        EntryState::Completed { dep_generations, .. } => {
                            assert(dep_generations@ =~= self.current_dep_generations(id));
                            assert(!self.some_dep_uncacheable(id)) by {
                                if self.some_dep_uncacheable(id) {
                                    let x = choose|x: int|
                                        0 <= x < Graph::dep_ids_of(self.edges@, id).len()
                                            && dep_uncacheable(
                                            self.entries@[#[trigger] Graph::dep_ids_of(
                                                self.edges@,
                                                id,
                                            )[x] as int],
                                        );
                                    assert(!dep_uncacheable(self.entries@[deps@[x] as int]));
                                }
                            }
                        },
                        _ => {},
                    }
                }
            }
            self.entries[id].mark_clean();
            let gen = self.entries[id].current_generation();
            match &self.entries[id].state {
                EntryState::Completed { result, .. } => match result {
                    Ok(item) => CleanOutcome::Clean(Ok((*item, gen))),
                    Err(e) => CleanOutcome::Clean(Err(e.duplicate())),
                },
                _ => {
                    proof {
                        assert(false);
                    }
                    CleanOutcome::Superseded
                },
            }
        } else {
            proof {
                assert(!self.clean_eligible(id)) by {
                    if self.clean_eligible(id) {
                        match self.entries@[id as int].state {
                            EntryState::Completed { dep_generations, .. } => {
                                assert(dep_generations@ == self.current_dep_generations(id));
                                assert forall|x: int| 0 <= x < deps@.len() implies !dep_uncacheable(
                                    self.entries@[(#[trigger] deps@[x]) as int],
                                ) by {
                                    assert(!dep_uncacheable(
                                        self.entries@[Graph::dep_ids_of(self.edges@, id)[x] as int],
                                    ));
                                }
                                assert forall|x: int|
                                    0 <= x < deps@.len() implies dep_generations@[x]
                                    == self.entries@[(#[trigger] deps@[x]) as int].generation() by {
                                    assert(self.current_dep_generations(id)[x]
                                        == self.entries@[deps@[x] as int].generation());
                                }
                            },
                            _ => {},
                        }
                    }
                }
            }
            self.remove_deps(id);
            self.entries[id].start_run();
            let t = self.entries[id].current_run_token();
            CleanOutcome::ReRun { run_token: t }
        }
    }
}

} // verus!

//! Per-node entries: the lifecycle state machine of a unit of work.

use vstd::prelude::*;

use crate::node::{err_eq, result_eq, results_equal, Item, Node, NodeError};

verus! {

/// A registered long-poll waiter: `waiter` is the caller's handle, and the
/// waiter fires when the entry next completes with a generation above `gate`,
/// or when the entry is cleared.
#[derive(Clone, Copy, Debug, PartialEq, Eq, Structural)]
pub struct PollWaiter {
    pub waiter: u64,
    pub gate: u64,
}

/// The lifecycle of an entry.
///
/// Every state carries the entry's run token and generation, both monotonic:
/// the run token is bumped on every transition that starts (or supersedes) a
/// run, and the generation is bumped when a completing value is observed to
/// differ from the previous one. States that are not `Completed` keep the
/// previous result so that a later completion can decide whether the value
/// really changed.
#[derive(Debug)]
pub enum EntryState {
    /// Never requested, or cleared.
    NotStarted {
        run_token: u64,
        generation: u64,
        previous_result: Option<Result<Item, NodeError>>,
    },
    /// A run is in flight under `run_token`; completions carrying any other
    /// token are discarded.
    Running {
        run_token: u64,
        generation: u64,
        previous_result: Option<Result<Item, NodeError>>,
    },
    /// A run finished. `dep_generations` records, in edge order, the
    /// generations of the dependencies observed by the completing run;
    /// `dirty` means "re-check inputs before trusting this value", and
    /// `has_uncacheable_deps` means some transitive dependency may never be
    /// trusted.
    Completed {
        run_token: u64,
        generation: u64,
        result: Result<Item, NodeError>,
        dep_generations: Vec<u64>,
        has_uncacheable_deps: bool,
        dirty: bool,
    },
}

/// An engine-owned record for one node: its state and its poll waiters.
#[derive(Debug)]
pub struct Entry {
    pub node: Node,
    pub state: EntryState,
    pub poll_waiters: Vec<PollWaiter>,
}

impl Entry {
    /// A fresh entry: not started, token and generation zero, no history.
    pub fn new(node: Node) -> (e: Entry)
        ensures
            e.node == node,
            e.state == (EntryState::NotStarted {
                run_token: 0u64,
                generation: 0u64,
                previous_result: None::<Result<Item, NodeError>>,
            }),
            e.poll_waiters@.len() == 0,
    {
        Entry {
            node,
            state: EntryState::NotStarted {
                run_token: 0,
                generation: 0,
                previous_result: None,
            },
            poll_waiters: Vec::new(),
        }
    }

    /// The entry's current run token.
    pub open spec fn run_token(self) -> u64 {
        match self.state {
            EntryState::NotStarted { run_token, .. } => run_token,
            EntryState::Running { run_token, .. } => run_token,
            EntryState::Completed { run_token, .. } => run_token,
        }
    }

    /// The entry's current generation.
    pub open spec fn generation(self) -> u64 {
        match self.state {
            EntryState::NotStarted { generation, .. } => generation,
            EntryState::Running { generation, .. } => generation,
            EntryState::Completed { generation, .. } => generation,
        }
    }

    /// The previous result a later completion will compare against.
    pub open spec fn previous_result(self) -> Option<Result<Item, NodeError>> {
        match self.state {
            EntryState::NotStarted { previous_result, .. } => previous_result,
            EntryState::Running { previous_result, .. } => previous_result,
            EntryState::Completed { result, .. } => Some(result),
        }
    }

    /// Started entries have been requested at least once since their last
    /// clearing; only these need clearing on invalidation.
    pub open spec fn is_started(self) -> bool {
        !(self.state is NotStarted)
    }

    pub open spec fn is_running(self) -> bool {
        self.state is Running
    }

    pub open spec fn is_completed(self) -> bool {
        self.state is Completed
    }

    /// A dirty entry was marked for re-check by a transitive invalidation; a
    /// clean one may be trusted as it stands.
    pub open spec fn is_dirty(self) -> bool {
        match self.state {
            EntryState::Completed { dirty, .. } => dirty,
            _ => false,
        }
    }

    pub open spec fn is_clean(self) -> bool {
        !self.is_dirty()
    }

    /// Whether some dependency of the completing run was uncacheable (or
    /// itself had uncacheable dependencies); such a value is re-checked on
    /// every request.
    pub open spec fn has_uncacheable_deps(self) -> bool {
        match self.state {
            EntryState::Completed { has_uncacheable_deps, .. } => has_uncacheable_deps,
            _ => false,
        }
    }
}

/// Per-entry monotonicity: the run token and generation never decrease, and
/// the node identity never changes.
pub open spec fn entry_advances(before: Entry, after: Entry) -> bool {
    &&& after.node == before.node
    &&& after.run_token() >= before.run_token()
    &&& after.generation() >= before.generation()
}

/// The successor of a run token or generation: monotonic, saturating at the
/// top of the counter (which 2^64 increments cannot reach).
pub open spec fn bump(t: u64) -> u64 {
    if t == u64::MAX {
        t
    } else {
        (t + 1) as u64
    }
}

/// Compute the successor of a run token or generation.
pub fn bump_counter(t: u64) -> (r: u64)
    ensures
        r == bump(t),
{
    if t == u64::MAX {
        t
    } else {
        t + 1
    }
}

/// A completing result counts as changed when there is no previous value to
/// compare against, when it differs from the previous one, or when it is the
/// invalidation error (which must propagate as a change).
pub open spec fn completion_changed(
    prev: Option<Result<Item, NodeError>>,
    result: Result<Item, NodeError>,
) -> bool {
    if (match result {
        Err(e) => err_eq(e, NodeError::Invalidated),
        Ok(_) => false,
    }) {
        true
    } else {
        match prev {
            None => true,
            Some(p) => !result_eq(p, result),
        }
    }
}

impl Entry {
    /// Drop the cached value and return to `NotStarted`, bumping the run
    /// token so any in-flight completion is discarded. The generation and the
    /// last result are kept so that a later completion can tell whether the
    /// value really changed.
    pub fn clear(&mut self)
        ensures
            final(self).node == old(self).node,
            final(self).poll_waiters == old(self).poll_waiters,
            final(self).state == (EntryState::NotStarted {
                run_token: bump(old(self).run_token()),
                generation: old(self).generation(),
                previous_result: old(self).previous_result(),
            }),
    {
        let mut st = EntryState::NotStarted { run_token: 0, generation: 0, previous_result: None };
        core::mem::swap(&mut self.state, &mut st);
        let (tok, gen, prev) = match st {
            EntryState::NotStarted { run_token, generation, previous_result } => (
                run_token,
                generation,
                previous_result,
            ),
            EntryState::Running { run_token, generation, previous_result } => (
                run_token,
                generation,
                previous_result,
            ),
            EntryState::Completed { run_token, generation, result, .. } => (
                run_token,
                generation,
                Some(result),
            ),
        };
        self.state = EntryState::NotStarted {
            run_token: bump_counter(tok),
            generation: gen,
            previous_result: prev,
        };
    }

    /// Mark the entry for re-check: a completed entry gets the dirty bit (its
    /// edges are kept so a clean-check can still compare dependency
    /// generations); a running entry gets a bumped run token so its in-flight
    /// completion is discarded; a not-started entry is untouched.
    pub fn dirty(&mut self)
        ensures
            final(self).node == old(self).node,
            final(self).poll_waiters == old(self).poll_waiters,
            final(self).state == (match old(self).state {
                EntryState::NotStarted { run_token, generation, previous_result } =>
                    EntryState::NotStarted { run_token, generation, previous_result },
                EntryState::Running { run_token, generation, previous_result } =>
                    EntryState::Running {
                        run_token: bump(run_token),
                        generation,
                        previous_result,
                    },
                EntryState::Completed {
                    run_token,
                    generation,
                    result,
                    dep_generations,
                    has_uncacheable_deps,
                    dirty: _,
                } => EntryState::Completed {
                    run_token,
                    generation,
                    result,
                    dep_generations,
                    has_uncacheable_deps,
                    dirty: true,
                },
            }),
    {
        let mut st = EntryState::NotStarted { run_token: 0, generation: 0, previous_result: None };
        core::mem::swap(&mut self.state, &mut st);
        self.state = match st {
            EntryState::NotStarted { run_token, generation, previous_result } =>
                EntryState::NotStarted { run_token, generation, previous_result },
            EntryState::Running { run_token, generation, previous_result } => EntryState::Running {
                run_token: bump_counter(run_token),
                generation,
                previous_result,
            },
            EntryState::Completed {
                run_token,
                generation,
                result,
                dep_generations,
                has_uncacheable_deps,
                dirty: _,
            } => EntryState::Completed {
                run_token,
                generation,
                result,
                dep_generations,
                has_uncacheable_deps,
                dirty: true,
            },
        };
    }

    /// Start (or restart) a run: bump the run token and transition to
    /// `Running`, keeping the generation and the last result.
    pub fn start_run(&mut self)
        ensures
            final(self).node == old(self).node,
            final(self).poll_waiters == old(self).poll_waiters,
            final(self).state == (EntryState::Running {
                run_token: bump(old(self).run_token()),
                generation: old(self).generation(),
                previous_result: old(self).previous_result(),
            }),
    {
        let mut st = EntryState::NotStarted { run_token: 0, generation: 0, previous_result: None };
        core::mem::swap(&mut self.state, &mut st);
        let (tok, gen, prev) = match st {
            EntryState::NotStarted { run_token, generation, previous_result } => (
                run_token,
                generation,
                previous_result,
            ),
            EntryState::Running { run_token, generation, previous_result } => (
                run_token,
                generation,
                previous_result,
            ),
            EntryState::Completed { run_token, generation, result, .. } => (
                run_token,
                generation,
                Some(result),
            ),
        };
        self.state = EntryState::Running {
            run_token: bump_counter(tok),
            generation: gen,
            previous_result: prev,
        };
    }

    /// Store the result of the run identified by `run_token`, bumping the
    /// generation exactly when the value is observed to have changed.
    /// Returns whether it did.
    pub fn store_result(
        &mut self,
        run_token: u64,
        result: Result<Item, NodeError>,
        dep_generations: Vec<u64>,
        has_uncacheable_deps: bool,
    ) -> (changed: bool)
        requires
            old(self).state is Running,
            old(self).run_token() == run_token,
        ensures
            changed == completion_changed(old(self).previous_result(), result),
            final(self).node == old(self).node,
            final(self).poll_waiters == old(self).poll_waiters,
            final(self).state == (EntryState::Completed {
                run_token,
                generation: if changed {
                    bump(old(self).generation())
                } else {
                    old(self).generation()
                },
                result,
                dep_generations,
                has_uncacheable_deps,
                dirty: false,
            }),
    {
        let mut st = EntryState::NotStarted { run_token: 0, generation: 0, previous_result: None };
        core::mem::swap(&mut self.state, &mut st);
        let (gen, prev) = match st {
            EntryState::Running { generation, previous_result, .. } => (
                generation,
                previous_result,
            ),
            EntryState::NotStarted { generation, previous_result, .. } => (
                generation,
                previous_result,
            ),
            EntryState::Completed { generation, result, .. } => (generation, Some(result)),
        };
        let invalidated = match &result {
            Err(e) => e.is_invalidated(),
            Ok(_) => false,
        };
        let changed = if invalidated {
            true
        } else {
            match &prev {
                None => true,
                Some(p) => !results_equal(p, &result),
            }
        };
        self.state = EntryState::Completed {
            run_token,
            generation: if changed {
                bump_counter(gen)
            } else {
                gen
            },
            result,
            dep_generations,
            has_uncacheable_deps,
            dirty: false,
        };
        changed
    }

    /// Re-mark a dirty completed entry as clean after a successful
    /// clean-check; everything else about it is untouched.
    pub fn mark_clean(&mut self)
        requires
            old(self).state is Completed,
        ensures
            final(self).node == old(self).node,
            final(self).poll_waiters == old(self).poll_waiters,
            final(self).state == (match old(self).state {
                EntryState::Completed {
                    run_token,
                    generation,
                    result,
                    dep_generations,
                    has_uncacheable_deps,
                    dirty: _,
                } => EntryState::Completed {
                    run_token,
                    generation,
                    result,
                    dep_generations,
                    has_uncacheable_deps,
                    dirty: false,
                },
                _ => old(self).state,
            }),
    {
        let mut st = EntryState::NotStarted { run_token: 0, generation: 0, previous_result: None };
        core::mem::swap(&mut self.state, &mut st);
        self.state = match st {
            EntryState::Completed {
                run_token,
                generation,
                result,
                dep_generations,
                has_uncacheable_deps,
                dirty: _,
            } => EntryState::Completed {
                run_token,
                generation,
                result,
                dep_generations,
                has_uncacheable_deps,
                dirty: false,
            },
            other => other,
        };
    }

    /// Whether the entry has started.
    pub fn started(&self) -> (b: bool)
        ensures
            b == self.is_started(),
    {
        !matches!(self.state, EntryState::NotStarted { .. })
    }

    /// Whether the entry is marked dirty.
    pub fn dirty_flag(&self) -> (b: bool)
        ensures
            b == self.is_dirty(),
    {
        match &self.state {
            EntryState::Completed { dirty, .. } => *dirty,
            _ => false,
        }
    }

    /// Whether a run has completed and its value is cached.
    pub fn completed(&self) -> (b: bool)
        ensures
            b == self.is_completed(),
    {
        matches!(self.state, EntryState::Completed { .. })
    }

    /// Whether a run is in flight.
    pub fn running(&self) -> (b: bool)
        ensures
            b == self.is_running(),
    {
        matches!(self.state, EntryState::Running { .. })
    }

    /// Whether the cached value has uncacheable dependencies.
    pub fn unc_deps(&self) -> (b: bool)
        ensures
            b == self.has_uncacheable_deps(),
    {
        match &self.state {
            EntryState::Completed { has_uncacheable_deps, .. } => *has_uncacheable_deps,
            _ => false,
        }
    }

    /// The entry's current run token.
    pub fn current_run_token(&self) -> (t: u64)
        ensures
            t == self.run_token(),
    {
        match &self.state {
            EntryState::NotStarted { run_token, .. } => *run_token,
            EntryState::Running { run_token, .. } => *run_token,
            EntryState::Completed { run_token, .. } => *run_token,
        }
    }

    /// The entry's current generation.
    pub fn current_generation(&self) -> (g: u64)
        ensures
            g == self.generation(),
    {
        match &self.state {
            EntryState::NotStarted { generation, .. } => *generation,
            EntryState::Running { generation, .. } => *generation,
            EntryState::Completed { generation, .. } => *generation,
        }
    }

    /// Register a long-poll waiter gated at `gate`.
    pub fn push_waiter(&mut self, waiter: u64, gate: u64)
        ensures
            final(self).node == old(self).node,
            final(self).state == old(self).state,
            final(self).poll_waiters@ == old(self).poll_waiters@.push(
                PollWaiter { waiter, gate },
            ),
    {
        self.poll_waiters.push(PollWaiter { waiter, gate });
    }

    /// Remove and return all registered waiters (they fire unconditionally;
    /// used when the entry is cleared).
    pub fn take_waiters(&mut self) -> (ws: Vec<PollWaiter>)
        ensures
            final(self).node == old(self).node,
            final(self).state == old(self).state,
            final(self).poll_waiters@.len() == 0,
            ws@ == old(self).poll_waiters@,
    {
        let mut ws: Vec<PollWaiter> = Vec::new();
        core::mem::swap(&mut self.poll_waiters, &mut ws);
        ws
    }

    /// Remove and return the waiters whose gate is below `generation` (they
    /// fire now); the others stay registered.
    pub fn take_waiters_below(&mut self, generation: u64) -> (ws: Vec<PollWaiter>)
        ensures
            final(self).node == old(self).node,
            final(self).state == old(self).state,
            ws@ == old(self).poll_waiters@.filter(|w: PollWaiter| w.gate < generation),
            final(self).poll_waiters@ == old(self).poll_waiters@.filter(
                |w: PollWaiter| w.gate >= generation,
            ),
    {
        let mut all: Vec<PollWaiter> = Vec::new();
        core::mem::swap(&mut self.poll_waiters, &mut all);
        let ghost allv = all@;
        let mut fired: Vec<PollWaiter> = Vec::new();
        let mut kept: Vec<PollWaiter> = Vec::new();
        let mut i: usize = 0;
        while i < all.len()
            invariant
                i <= allv.len(),
                all@ == allv,
                fired@ == allv.subrange(0, i as int).filter(|w: PollWaiter| w.gate < generation),
                kept@ == allv.subrange(0, i as int).filter(|w: PollWaiter| w.gate >= generation),
            decreases allv.len() - i,
        {
            let w = all[i];
            proof {
                assert(allv.subrange(0, i as int + 1).drop_last() =~= allv.subrange(0, i as int));
                assert(allv.subrange(0, i as int + 1).last() == w);
                reveal_with_fuel(Seq::filter, 2);
            }
            if w.gate < generation {
                fired.push(w);
            } else {
                kept.push(w);
            }
            i += 1;
        }
        proof {
            assert(allv.subrange(0, allv.len() as int) =~= allv);
        }
        self.poll_waiters = kept;
        fired
    }
}

} // verus!

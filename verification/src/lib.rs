//! A memoizing, demand-driven dependency graph engine for incremental
//! computation.
//!
//! Work is modelled as nodes of a directed acyclic graph; evaluating a node
//! may request other nodes, which become its dependencies. The engine caches
//! results, detects cycles at edge-insertion time, invalidates arbitrary node
//! subsets, dirties transitive dependents, cleans dirty entries whose inputs
//! are provably unchanged, and answers long-poll queries that wake only when
//! a node's observed generation changes.
//!
//! The graph itself is a synchronous state machine: every operation takes the
//! graph by `&mut` and returns a decision. Callers that need to run node
//! runners (which are asynchronous, user-supplied work) drive the machine in
//! a loop: an operation that needs outside work says so in its result, the
//! caller performs it, and hands the outcome back through [`Graph::complete`].

use vstd::prelude::*;

pub mod complete;
pub mod critical;
pub mod cycle;
pub mod entry;
pub mod invalidate;
pub mod laws;
pub mod node;
pub mod request;
pub mod walk;

pub use complete::{CleanOutcome, CompleteResult};
pub use entry::{Entry, EntryState, PollWaiter};
pub use node::{EntryId, Item, Node, NodeError};
pub use request::{GetOutcome, PollOutcome, RetryDecision};
pub use walk::Direction;

use entry::{bump, entry_advances};

verus! {

/// What `invalidate_from_roots` did: how many entries it cleared (the matching
/// roots) and how many transitive dependents it dirtied.
#[derive(Debug, Eq, PartialEq, Structural)]
pub struct InvalidationResult {
    pub cleared: usize,
    pub dirtied: usize,
}

/// An opaque token representing a particular observed "version" of a node:
/// the generation a poller last saw.
#[derive(Clone, Copy, Debug, Eq, PartialEq, Structural)]
pub struct LastObserved(pub u64);

/// A demand-driven, memoizing graph of entries, enforced acyclic on mutation.
pub struct Graph {
    /// The entry arena; an [`EntryId`] is an index into it. Entries are never
    /// removed.
    pub entries: Vec<Entry>,
    /// Directed dependency edges `(src, dst)`: `src` depends on `dst`.
    pub edges: Vec<(usize, usize)>,
    /// While draining, new requests fail fast with an invalidation error, but
    /// in-flight work is not cancelled.
    pub draining: bool,
    /// Poll waiters woken since the caller last drained this list.
    pub woken: Vec<u64>,
}

impl Graph {
    /// Well-formedness: every edge endpoint is a valid entry index, and no two
    /// entries share a node.
    pub open spec fn wf(self) -> bool {
        &&& forall|k: int|
            0 <= k < self.edges@.len() ==> (#[trigger] self.edges@[k]).0 < self.entries@.len()
                && self.edges@[k].1 < self.entries@.len()
        &&& forall|i: int, j: int|
            0 <= i < self.entries@.len() && 0 <= j < self.entries@.len() && i != j
                ==> (#[trigger] self.entries@[i]).node != (#[trigger] self.entries@[j]).node
    }

    pub fn new() -> (g: Graph)
        ensures
            g.wf(),
            g.entries@.len() == 0,
            g.edges@.len() == 0,
            !g.draining,
            g.woken@.len() == 0,
    {
        Graph { entries: Vec::new(), edges: Vec::new(), draining: false, woken: Vec::new() }
    }

    /// The number of entries (and so of distinct nodes) in the graph.
    pub fn len(&self) -> (n: usize)
        ensures
            n == self.entries@.len(),
    {
        self.entries.len()
    }

    /// Some entry already holds this node.
    pub open spec fn has_node(self, node: Node) -> bool {
        exists|i: int| 0 <= i < self.entries@.len() && self.entries@[i].node == node
    }

    /// The index a node's entry has, or will get on first insertion: the
    /// existing one (unique by well-formedness) where the node is known, the
    /// next fresh index otherwise.
    pub open spec fn node_index(self, node: Node) -> int {
        if self.has_node(node) {
            choose|i: int| 0 <= i < self.entries@.len() && self.entries@[i].node == node
        } else {
            self.entries@.len() as int
        }
    }

    /// Monotonicity of the whole graph: entries are never removed, and each
    /// entry's run token and generation never decrease.
    pub open spec fn advances(before: Graph, after: Graph) -> bool {
        &&& after.entries@.len() >= before.entries@.len()
        &&& forall|i: int|
            0 <= i < before.entries@.len() ==> entry_advances(
                before.entries@[i],
                #[trigger] after.entries@[i],
            )
    }

    /// Find the entry for a node, creating a fresh `NotStarted` one on first
    /// sight. Idempotent: an existing entry (and everything else) is untouched.
    pub fn ensure_entry(&mut self, node: Node) -> (id: EntryId)
        requires
            old(self).wf(),
        ensures
            final(self).wf(),
            Graph::advances(*old(self), *final(self)),
            final(self).edges == old(self).edges,
            final(self).draining == old(self).draining,
            final(self).woken == old(self).woken,
            id < final(self).entries@.len(),
            id == old(self).node_index(node),
            final(self).entries@[id as int].node == node,
            old(self).has_node(node) ==> final(self).entries == old(self).entries,
            !old(self).has_node(node) ==> {
                &&& id == old(self).entries@.len()
                &&& final(self).entries@.len() == old(self).entries@.len() + 1
                &&& forall|i: int|
                    0 <= i < old(self).entries@.len() ==> final(self).entries@[i] == old(
                        self,
                    ).entries@[i]
                &&& final(self).entries@[id as int].state == (EntryState::NotStarted {
                    run_token: 0u64,
                    generation: 0u64,
                    previous_result: None::<Result<Item, NodeError>>,
                })
                &&& final(self).entries@[id as int].poll_waiters@.len() == 0
            },
    {
        let n = self.entries.len();
        let mut i: usize = 0;
        while i < n
            invariant
                self.wf(),
                n == self.entries@.len(),
                i <= n,
                forall|j: int| 0 <= j < i ==> self.entries@[j].node != node,
            decreases n - i,
        {
            if self.entries[i].node == node {
                proof {
                    assert(self.has_node(node));
                    let ci = choose|c: int|
                        0 <= c < self.entries@.len() && self.entries@[c].node == node;
                    assert(ci == i as int);
                }
                return i;
            }
            i += 1;
        }
        proof {
            assert(!self.has_node(node));
        }
        self.entries.push(Entry::new(node));
        n
    }

    /// Set the draining status. Fails (leaving the graph untouched) when the
    /// status is already the requested one; no operation is otherwise
    /// affected here, but a draining graph refuses new requests.
    pub fn mark_draining(&mut self, draining: bool) -> (r: Result<(), ()>)
        requires
            old(self).wf(),
        ensures
            final(self).wf(),
            final(self).entries == old(self).entries,
            final(self).edges == old(self).edges,
            final(self).woken == old(self).woken,
            r is Ok <==> old(self).draining != draining,
            r is Ok ==> final(self).draining == draining,
            r is Err ==> final(self).draining == old(self).draining,
    {
        if self.draining == draining {
            Err(())
        } else {
            self.draining = draining;
            Ok(())
        }
    }

    /// Drop the cached state of every entry (keeping dependency edges), firing
    /// all poll waiters. Each entry returns to `NotStarted` with a bumped run
    /// token, keeping its generation and last result for later comparison.
    pub fn clear(&mut self)
        requires
            old(self).wf(),
        ensures
            final(self).wf(),
            Graph::advances(*old(self), *final(self)),
            final(self).entries@.len() == old(self).entries@.len(),
            final(self).edges == old(self).edges,
            final(self).draining == old(self).draining,
            forall|i: int|
                0 <= i < old(self).entries@.len() ==> {
                    &&& (#[trigger] final(self).entries@[i]).state == (EntryState::NotStarted {
                        run_token: bump(old(self).entries@[i].run_token()),
                        generation: old(self).entries@[i].generation(),
                        previous_result: old(self).entries@[i].previous_result(),
                    })
                    &&& final(self).entries@[i].poll_waiters@.len() == 0
                },
            old(self).woken@.is_prefix_of(final(self).woken@),
            forall|i: int, k: int|
                0 <= i < old(self).entries@.len() && 0 <= k
                    < old(self).entries@[i].poll_waiters@.len() ==> final(self).woken@.contains(
                    (#[trigger] old(self).entries@[i].poll_waiters@[k]).waiter,
                ),
    {
        let n = self.entries.len();
        let mut i: usize = 0;
        while i < n
            invariant
                n == self.entries@.len(),
                n == old(self).entries@.len(),
                i <= n,
                self.wf(),
                self.edges == old(self).edges,
                self.draining == old(self).draining,
                forall|j: int| i <= j < n ==> self.entries@[j] == old(self).entries@[j],
                forall|j: int|
                    0 <= j < i ==> {
                        &&& (#[trigger] self.entries@[j]).node == old(self).entries@[j].node
                        &&& self.entries@[j].state == (EntryState::NotStarted {
                            run_token: bump(old(self).entries@[j].run_token()),
                            generation: old(self).entries@[j].generation(),
                            previous_result: old(self).entries@[j].previous_result(),
                        })
                        &&& self.entries@[j].poll_waiters@.len() == 0
                    },
                old(self).woken@.is_prefix_of(self.woken@),
                forall|j: int, k: int|
                    0 <= j < i && 0 <= k < old(self).entries@[j].poll_waiters@.len() ==> self
                        .woken@.contains(
                        (#[trigger] old(self).entries@[j].poll_waiters@[k]).waiter,
                    ),
            decreases n - i,
        {
            let ghost pre_woken = self.woken@;
            let ws = self.entries[i].take_waiters();
            Graph::append_woken(&mut self.woken, &ws);
            proof {
                assert(self.woken@.subrange(0, pre_woken.len() as int) =~= pre_woken);
                assert forall|m: int| 0 <= m < ws@.len() implies self.woken@.contains(
                    (#[trigger] ws@[m]).waiter,
                ) by {
                    assert(self.woken@[pre_woken.len() + m] == ws@.map_values(
                        |w: PollWaiter| w.waiter,
                    )[m]);
                }
                assert forall|w: u64| pre_woken.contains(w) implies self.woken@.contains(w) by {
                    let j = choose|j: int| 0 <= j < pre_woken.len() && pre_woken[j] == w;
                    assert(self.woken@[j] == w);
                }
                assert(pre_woken.subrange(0, old(self).woken@.len() as int) =~= old(self).woken@);
                assert(old(self).woken@.is_prefix_of(self.woken@)) by {
                    assert(self.woken@.subrange(0, old(self).woken@.len() as int) =~= old(
                        self,
                    ).woken@);
                }
            }
            self.entries[i].clear();
            i += 1;
        }
    }

    /// Append the handles of the given waiters to the woken list.
    fn append_woken(woken: &mut Vec<u64>, ws: &Vec<PollWaiter>)
        ensures
            final(woken)@ == old(woken)@ + ws@.map_values(|w: PollWaiter| w.waiter),
    {
        let mut k: usize = 0;
        while k < ws.len()
            invariant
                k <= ws@.len(),
                woken@ == old(woken)@ + ws@.subrange(0, k as int).map_values(
                    |w: PollWaiter| w.waiter,
                ),
            decreases ws@.len() - k,
        {
            proof {
                let f = |w: PollWaiter| w.waiter;
                assert(ws@.subrange(0, k as int + 1).map_values(f) =~= ws@.subrange(
                    0,
                    k as int,
                ).map_values(f).push(f(ws@[k as int])));
                assert(woken@.push(f(ws@[k as int])) =~= old(woken)@ + ws@.subrange(
                    0,
                    k as int + 1,
                ).map_values(f));
            }
            woken.push(ws[k].waiter);
            k += 1;
        }
        proof {
            assert(ws@.subrange(0, ws@.len() as int) =~= ws@);
        }
    }

    /// Drain the list of poll waiters woken since the last drain.
    pub fn take_woken(&mut self) -> (ws: Vec<u64>)
        requires
            old(self).wf(),
        ensures
            final(self).wf(),
            final(self).entries == old(self).entries,
            final(self).edges == old(self).edges,
            final(self).draining == old(self).draining,
            final(self).woken@.len() == 0,
            ws@ == old(self).woken@,
    {
        let mut ws: Vec<u64> = Vec::new();
        core::mem::swap(&mut self.woken, &mut ws);
        ws
    }
}

} // verus!

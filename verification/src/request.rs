//! Requesting nodes: edge insertion with cycle resolution, and the decision
//! an engine caller drives runs by.

use vstd::prelude::*;

use crate::cycle::{all_clean, cycle_shape, dirty_ids, reaches};
use crate::entry::{bump, entry_advances, Entry, EntryState, PollWaiter};
use crate::node::{err_eq, EntryId, Item, Node, NodeError};
use crate::walk::{edge_matches, edge_nb, has_edge, lemma_reachable_mono_edges, lemma_reachable_trans, reachable, Direction};
use crate::{Graph, LastObserved};

verus! {

/// What a request did, and what its caller must do next.
///
/// The engine never runs user work itself: when a run is needed, it hands the
/// caller a `Started` decision, the caller invokes the node's runner (which
/// requests dependencies through [`Graph::get`] with its own id as source and
/// finishes through [`Graph::complete`] with the given token), and asks again.
#[derive(Debug)]
pub enum GetOutcome {
    /// The request finished at once: a cached value with its generation, or an
    /// error (a cached failure, a cycle, or invalidation while draining).
    Done(Result<(Item, u64), NodeError>),
    /// A fresh run was started under `run_token`: invoke the node's runner,
    /// then call [`Graph::complete`].
    Started { id: EntryId, run_token: u64 },
    /// A run is already in flight: wait for its completion, then ask again.
    Wait { id: EntryId },
    /// The cached value may be stale: refresh each dependency in `deps` (by
    /// requesting it), then call [`Graph::resolve_clean_check`].
    CleanCheck { id: EntryId, run_token: u64, deps: Vec<EntryId> },
}

/// What a retry-eligible caller does with a failed attempt.
#[derive(Debug, PartialEq, Eq, Structural)]
pub enum RetryDecision {
    /// The attempt was invalidated under the caller; ask again.
    Retry,
    /// The retry budget is spent; fail with the exhaustion error.
    GiveUp,
    /// A real failure; hand it to the caller unchanged.
    Surface,
}

/// What a long-poll request did.
#[derive(Debug, PartialEq, Eq, Structural)]
pub enum PollOutcome {
    /// The node has already moved past the observed generation (or none was
    /// given): request it now.
    Ready,
    /// The waiter was registered; it appears in the woken list once the node
    /// completes with a greater generation or is cleared.
    Suspended,
}

/// The outcome is the invalidation error.
pub open spec fn invalidated_outcome(r: GetOutcome) -> bool {
    match r {
        GetOutcome::Done(Err(e)) => err_eq(e, NodeError::Invalidated),
        _ => false,
    }
}

/// The outcome is a cycle error.
pub open spec fn cyclic_outcome(r: GetOutcome) -> bool {
    match r {
        GetOutcome::Done(Err(e)) => e is Cyclic,
        _ => false,
    }
}

/// The node path carried by a cycle error.
pub open spec fn cyclic_path_of(r: GetOutcome) -> Seq<Node> {
    match r {
        GetOutcome::Done(Err(NodeError::Cyclic(p))) => p@,
        _ => Seq::empty(),
    }
}

/// The outcome hands back exactly the cached result `res` at generation `gen`.
pub open spec fn done_of(res: Result<Item, NodeError>, gen: u64, r: GetOutcome) -> bool {
    match r {
        GetOutcome::Done(d) => match (res, d) {
            (Ok(item), Ok((x, g))) => x == item && g == gen,
            (Err(e), Err(e2)) => err_eq(e2, e),
            _ => false,
        },
        _ => false,
    }
}

/// A cached value may be returned as it stands: completed, not dirty, no
/// uncacheable dependencies, and the node itself cacheable.
pub open spec fn hit_eligible(e: Entry) -> bool {
    &&& e.state is Completed
    &&& !e.is_dirty()
    &&& !e.has_uncacheable_deps()
    &&& e.node.cacheable
}

/// The result cached on a completed entry.
pub open spec fn cached(e: Entry) -> Result<Item, NodeError> {
    match e.state {
        EntryState::Completed { result, .. } => result,
        _ => Ok(0),
    }
}

/// The run token the destination entry holds before a request (zero for an
/// entry yet to be created).
pub open spec fn pre_token(g: Graph, node: Node) -> u64 {
    if g.has_node(node) {
        g.entries@[g.node_index(node)].run_token()
    } else {
        0u64
    }
}

/// The generation the destination entry holds before a request.
pub open spec fn pre_generation(g: Graph, node: Node) -> u64 {
    if g.has_node(node) {
        g.entries@[g.node_index(node)].generation()
    } else {
        0u64
    }
}

/// The previous result the destination entry holds before a request.
pub open spec fn pre_previous(g: Graph, node: Node) -> Option<Result<Item, NodeError>> {
    if g.has_node(node) {
        g.entries@[g.node_index(node)].previous_result()
    } else {
        None
    }
}

/// The edge list after recording `s -> d`: unchanged when the edge is already
/// present, extended by it otherwise.
pub open spec fn edges_after_insert(
    edges: Seq<(usize, usize)>,
    s: usize,
    d: usize,
) -> Seq<(usize, usize)> {
    if edges.contains((s, d)) {
        edges
    } else {
        edges.push((s, d))
    }
}

impl Graph {
    /// Record the dependency edge `a -> b`. Parallel duplicates are collapsed:
    /// a second insertion of the same edge changes nothing.
    pub fn add_edge(&mut self, a: usize, b: usize)
        requires
            old(self).wf(),
            a < old(self).entries@.len(),
            b < old(self).entries@.len(),
        ensures
            final(self).wf(),
            final(self).entries == old(self).entries,
            final(self).draining == old(self).draining,
            final(self).woken == old(self).woken,
            final(self).edges@ == (if old(self).edges@.contains((a, b)) {
                old(self).edges@
            } else {
                old(self).edges@.push((a, b))
            }),
            has_edge(final(self).edges@, a, b),
    {
        let n = self.edges.len();
        let mut k: usize = 0;
        while k < n
            invariant
                self.wf(),
                n == self.edges@.len(),
                k <= n,
                forall|j: int| 0 <= j < k ==> #[trigger] self.edges@[j] != (a, b),
            decreases n - k,
        {
            let e = self.edges[k];
            if e.0 == a && e.1 == b {
                proof {
                    assert(self.edges@[k as int] == (a, b));
                    assert(self.edges@.contains((a, b)));
                    assert(edge_matches(self.edges@[k as int], Direction::Outgoing, a));
                }
                return ;
            }
            k += 1;
        }
        proof {
            assert(!self.edges@.contains((a, b))) by {
                if self.edges@.contains((a, b)) {
                    let j = choose|j: int| 0 <= j < self.edges@.len() && self.edges@[j] == (a, b);
                }
            }
        }
        self.edges.push((a, b));
        proof {
            assert(self.edges@[self.edges@.len() - 1] == (a, b));
            assert(edge_matches(self.edges@[self.edges@.len() - 1], Direction::Outgoing, a));
        }
    }

    /// Remove every outgoing edge of `id`: its recorded dependencies belong to
    /// a run that is being replaced.
    pub fn remove_deps(&mut self, id: usize)
        requires
            old(self).wf(),
        ensures
            final(self).wf(),
            final(self).entries == old(self).entries,
            final(self).draining == old(self).draining,
            final(self).woken == old(self).woken,
            final(self).edges@ == old(self).edges@.filter(|e: (usize, usize)| e.0 != id),
    {
        let n = self.edges.len();
        let ghost all = self.edges@;
        let mut kept: Vec<(usize, usize)> = Vec::new();
        let mut k: usize = 0;
        while k < n
            invariant
                *self == *old(self),
                self.wf(),
                self.edges@ == all,
                n == all.len(),
                k <= n,
                kept@ == all.subrange(0, k as int).filter(|e: (usize, usize)| e.0 != id),
                forall|j: int|
                    0 <= j < kept@.len() ==> (#[trigger] kept@[j]).0 < self.entries@.len()
                        && kept@[j].1 < self.entries@.len(),
            decreases n - k,
        {
            let e = self.edges[k];
            proof {
                assert(all.subrange(0, k as int + 1).drop_last() =~= all.subrange(0, k as int));
                assert(all.subrange(0, k as int + 1).last() == e);
                reveal_with_fuel(Seq::filter, 2);
            }
            if e.0 != id {
                kept.push(e);
            }
            k += 1;
        }
        proof {
            assert(all.subrange(0, all.len() as int) =~= all);
        }
        self.edges = kept;
    }

    /// The outgoing dependency ids recorded for `id`, in edge order.
    pub open spec fn dep_ids_of(edges: Seq<(usize, usize)>, id: usize) -> Seq<usize> {
        edges.filter(|e: (usize, usize)| e.0 == id).map_values(|e: (usize, usize)| e.1)
    }

    /// Collect the outgoing dependency ids of `id`, in edge order.
    pub fn dep_ids(&self, id: usize) -> (deps: Vec<usize>)
        requires
            self.wf(),
        ensures
            deps@ == Graph::dep_ids_of(self.edges@, id),
            forall|j: int| 0 <= j < deps@.len() ==> #[trigger] deps@[j] < self.entries@.len(),
    {
        let n = self.edges.len();
        let mut deps: Vec<usize> = Vec::new();
        let mut k: usize = 0;
        while k < n
            invariant
                self.wf(),
                n == self.edges@.len(),
                k <= n,
                deps@ == Graph::dep_ids_of(self.edges@.subrange(0, k as int), id),
                forall|j: int| 0 <= j < deps@.len() ==> #[trigger] deps@[j] < self.entries@.len(),
            decreases n - k,
        {
            let e = self.edges[k];
            proof {
                let sub1 = self.edges@.subrange(0, k as int + 1);
                let sub0 = self.edges@.subrange(0, k as int);
                assert(sub1.drop_last() =~= sub0);
                assert(sub1.last() == e);
                reveal_with_fuel(Seq::filter, 2);
                let p = |x: (usize, usize)| x.0 == id;
                let f = |x: (usize, usize)| x.1;
                if e.0 == id {
                    assert(sub1.filter(p) =~= sub0.filter(p).push(e));
                    assert(sub1.filter(p).map_values(f) =~= sub0.filter(p).map_values(f).push(
                        e.1,
                    ));
                } else {
                    assert(sub1.filter(p) =~= sub0.filter(p));
                }
            }
            if e.0 == id {
                deps.push(e.1);
            }
            k += 1;
        }
        proof {
            assert(self.edges@.subrange(0, n as int) =~= self.edges@);
        }
        deps
    }

    /// Request `dst_node`, optionally as a dependency of the entry `src_id`
    /// whose runner is asking.
    ///
    /// Fails fast while draining. Creates the destination entry on first
    /// sight. With a source, refuses the edge with a cycle error when it would
    /// close a cycle of trustworthy edges (resolving cycles through dirty
    /// entries by invalidating them first), and records it otherwise. Then
    /// decides from the destination's state: hand back the cached value,
    /// start a run, wait for the one in flight, or ask for a clean-check.
    #[verifier::loop_isolation(false)]
    pub fn get(&mut self, src_id: Option<EntryId>, dst_node: Node) -> (r: GetOutcome)
        requires
            old(self).wf(),
            match src_id {
                Some(s) => s < old(self).entries@.len(),
                None => true,
            },
        ensures
            final(self).wf(),
            Graph::advances(*old(self), *final(self)),
            old(self).woken@.is_prefix_of(final(self).woken@),
            // Draining: refused outright, nothing touched.
            old(self).draining ==> *final(self) == *old(self) && invalidated_outcome(r),
            !old(self).draining ==> {
                &&& final(self).draining == old(self).draining
                &&& final(self).entries@.len() == (if old(self).has_node(dst_node) {
                    old(self).entries@.len()
                } else {
                    old(self).entries@.len() + 1
                })
                &&& final(self).entries@[old(self).node_index(dst_node)].node == dst_node
            },
            // A refused edge is not recorded: on a cycle error no new edge
            // exists. (A completed destination is excluded: its cached result,
            // handed back after the edge is recorded, may itself be an old
            // cycle error.)
            (cyclic_outcome(r) && (!old(self).has_node(dst_node) || !(old(self).entries@[old(
                self,
            ).node_index(dst_node)].state is Completed))) ==> forall|k: int|
                0 <= k < final(self).edges@.len() ==> old(self).edges@.contains(
                    #[trigger] final(self).edges@[k],
                ),
            // A clean self-dependency reports the two-node cycle and mutates nothing.
            (!old(self).draining && src_id == Some(old(self).node_index(dst_node) as usize)
                && old(self).entries@[old(self).node_index(dst_node)].is_clean()) ==> {
                &&& *final(self) == *old(self)
                &&& cyclic_outcome(r)
                &&& cyclic_path_of(r) == seq![dst_node, dst_node]
            },
            // When every entry is clean, a surviving dependency path back to the
            // source means the request fails with a cycle error.
            (!old(self).draining && all_clean(*old(self)) && match src_id {
                Some(s) => s == old(self).node_index(dst_node) || (old(self).has_node(dst_node)
                    && reaches(old(self).edges@, old(self).node_index(dst_node) as usize, s)),
                None => false,
            }) ==> cyclic_outcome(r),
            // More locally: a dependency path back to the source, none of
            // whose entries depends on a dirty entry, always forces the cycle
            // error — resolution rounds touch only dependents of dirty
            // entries, so such a path survives them.
            (!old(self).draining && match src_id {
                Some(s) => old(self).has_node(dst_node) && exists|q: Seq<usize>|
                    {
                        &&& q.len() >= 1
                        &&& q[0] == old(self).node_index(dst_node) as usize
                        &&& q[q.len() - 1] == s
                        &&& #[trigger] crate::cycle::is_edge_path(old(self).edges@, q)
                        &&& forall|x: int|
                            0 <= x < q.len() ==> !reachable(
                                old(self).edges@,
                                Direction::Incoming,
                                dirty_ids(*old(self)),
                                #[trigger] q[x],
                            )
                    },
                None => false,
            }) ==> cyclic_outcome(r),
            // An external request on an existing entry decides by its state
            // and touches nothing else.
            (!old(self).draining && src_id is None && old(self).has_node(dst_node)) ==> {
                let idx = old(self).node_index(dst_node);
                let e = old(self).entries@[idx];
                &&& (e.is_running() ==> *final(self) == *old(self) && r == (GetOutcome::Wait {
                    id: idx as usize,
                }))
                &&& (hit_eligible(e) ==> *final(self) == *old(self) && done_of(
                    cached(e),
                    e.generation(),
                    r,
                ))
                &&& ((e.state is Completed && !hit_eligible(e)) ==> *final(self) == *old(self)
                    && (match r {
                    GetOutcome::CleanCheck { id, run_token, deps } => {
                        &&& id == idx as usize
                        &&& run_token == e.run_token()
                        &&& deps@ == Graph::dep_ids_of(old(self).edges@, idx as usize)
                    },
                    _ => false,
                }))
            },
            // A dependency request that is not refused records its edge.
            (!old(self).draining && !cyclic_outcome(r)) ==> (match src_id {
                Some(s) => has_edge(
                    final(self).edges@,
                    s,
                    old(self).node_index(dst_node) as usize,
                ),
                None => true,
            }),
            // A refusal carries the offending cycle: the nodes of an existing
            // dependency path from the destination back to the source, with
            // the destination appended. (A completed destination is excluded,
            // as its cached result may itself be an old cycle error.)
            (!old(self).draining && cyclic_outcome(r) && (!old(self).has_node(dst_node) || !(old(
                self,
            ).entries@[old(self).node_index(dst_node)].state is Completed))) ==> (match src_id {
                Some(s) => exists|c: Seq<usize>|
                    {
                        &&& #[trigger] cycle_shape(
                            final(self).edges@,
                            s,
                            old(self).node_index(dst_node) as usize,
                            c,
                        )
                        &&& forall|i: int| 0 <= i < c.len() ==> c[i] < final(self).entries@.len()
                        &&& cyclic_path_of(r).len() == c.len()
                        &&& forall|i: int|
                            0 <= i < c.len() ==> cyclic_path_of(r)[i]
                                == final(self).entries@[c[i] as int].node
                        &&& forall|q: Seq<usize>|
                            q.len() >= 1 && q[0] == old(self).node_index(dst_node) as usize
                                && q[q.len() - 1] == s && #[trigger] crate::cycle::is_edge_path(
                                final(self).edges@,
                                q,
                            ) ==> c.len() <= q.len() + 1
                    },
                None => false,
            }),
            // A dependency request on a clean graph whose edge closes no cycle
            // behaves exactly like an external one, the recorded edge being
            // the only extra change.
            (!old(self).draining && all_clean(*old(self))) ==> (match src_id {
                Some(s) => (s != old(self).node_index(dst_node) as usize && !(old(self).has_node(
                    dst_node,
                ) && reaches(old(self).edges@, old(self).node_index(dst_node) as usize, s)))
                    ==> {
                    let idx = old(self).node_index(dst_node);
                    let inserted = edges_after_insert(old(self).edges@, s, idx as usize);
                    &&& ((!old(self).has_node(dst_node) || old(self).entries@[idx].state
                        is NotStarted) ==> {
                        &&& r == (GetOutcome::Started {
                            id: idx as usize,
                            run_token: bump(pre_token(*old(self), dst_node)),
                        })
                        &&& final(self).entries@[idx].state == (EntryState::Running {
                            run_token: bump(pre_token(*old(self), dst_node)),
                            generation: pre_generation(*old(self), dst_node),
                            previous_result: pre_previous(*old(self), dst_node),
                        })
                        &&& final(self).entries@[idx].node == dst_node
                        &&& final(self).edges@ == inserted.filter(
                            |e: (usize, usize)| e.0 != idx as usize,
                        )
                        &&& forall|i: int|
                            0 <= i < old(self).entries@.len() && i != idx
                                ==> final(self).entries@[i] == old(self).entries@[i]
                    })
                    &&& (old(self).has_node(dst_node) ==> {
                        let e = old(self).entries@[idx];
                        &&& (e.is_running() ==> final(self).entries == old(self).entries
                            && final(self).edges@ == inserted && r == (GetOutcome::Wait {
                            id: idx as usize,
                        }))
                        &&& (hit_eligible(e) ==> final(self).entries == old(self).entries
                            && final(self).edges@ == inserted && done_of(
                            cached(e),
                            e.generation(),
                            r,
                        ))
                        &&& ((e.state is Completed && !hit_eligible(e)) ==> final(self).entries
                            == old(self).entries && final(self).edges@ == inserted && (match r {
                            GetOutcome::CleanCheck { id, run_token, deps } => {
                                &&& id == idx as usize
                                &&& run_token == e.run_token()
                                &&& deps@ == Graph::dep_ids_of(inserted, idx as usize)
                            },
                            _ => false,
                        }))
                    })
                },
                None => true,
            }),
            // Starting a run: a not-started (or fresh) entry transitions to
            // Running under the next token, keeping its generation and last
            // result for the completion's change comparison, its stale
            // outgoing edges dropped.
            (!old(self).draining && src_id is None && (!old(self).has_node(dst_node) || old(
                self,
            ).entries@[old(self).node_index(dst_node)].state is NotStarted)) ==> {
                let idx = old(self).node_index(dst_node);
                &&& r == (GetOutcome::Started {
                    id: idx as usize,
                    run_token: bump(pre_token(*old(self), dst_node)),
                })
                &&& final(self).entries@[idx].state == (EntryState::Running {
                    run_token: bump(pre_token(*old(self), dst_node)),
                    generation: pre_generation(*old(self), dst_node),
                    previous_result: pre_previous(*old(self), dst_node),
                })
                &&& final(self).entries@[idx].node == dst_node
                &&& final(self).edges@ == old(self).edges@.filter(
                    |e: (usize, usize)| e.0 != idx as usize,
                )
                &&& forall|i: int|
                    0 <= i < old(self).entries@.len() && i != idx ==> final(self).entries@[i]
                        == old(self).entries@[i]
                &&& final(self).woken == old(self).woken
            },
    {
        if self.draining {
            return GetOutcome::Done(Err(NodeError::Invalidated));
        }
        let dst_id = self.ensure_entry(dst_node);
        let ghost g1 = *self;
        proof {
            if old(self).has_node(dst_node) {
                assert(g1 == *old(self));
            }
        }
        if let Some(src) = src_id {
            match self.resolve_cycle(src, dst_id) {
                Some(found) => {
                    let (c, _) = found;
                    let mut nodes: Vec<Node> = Vec::new();
                    let mut j: usize = 0;
                    while j < c.len()
                        invariant
                            j <= c@.len(),
                            nodes@.len() == j,
                            forall|x: int| 0 <= x < c@.len() ==> #[trigger] c@[x] < self.entries@.len(),
                            forall|x: int|
                                0 <= x < j ==> #[trigger] nodes@[x] == self.entries@[c@[x] as int].node,
                        decreases c@.len() - j,
                    {
                        let id = c[j];
                        nodes.push(self.entries[id].node);
                        j += 1;
                    }
                    proof {
                        if src == dst_id && g1.entries@[dst_id as int].is_clean() {
                            assert(c@ == seq![dst_id, dst_id]);
                            assert(nodes@ =~= seq![dst_node, dst_node]);
                        }
                        // The ids of the reported cycle witness the surfaced
                        // node path.
                        assert(cycle_shape(self.edges@, src, dst_id, c@));
                        // On a clean graph a cycle is reported only when one
                        // really exists through the old edges.
                        if all_clean(*old(self)) {
                            assert(all_clean(g1)) by {
                                assert forall|i: int|
                                    0 <= i < g1.entries@.len() implies (
                                #[trigger] g1.entries@[i]).is_clean() by {
                                    if i < old(self).entries@.len() {
                                        assert(g1.entries@[i] == old(self).entries@[i]);
                                    }
                                }
                            }
                            assert(g1.edges@ == old(self).edges@);
                            if !old(self).has_node(dst_node) {
                                // A fresh destination has no edges at all, so
                                // nothing is reachable from it but itself.
                                assert(!reaches(g1.edges@, dst_id, src)) by {
                                    if reaches(g1.edges@, dst_id, src) {
                                        let vis = crate::cycle::single_root(dst_id);
                                        assert forall|a2: usize, w: usize|
                                            vis.contains(a2) && #[trigger] crate::walk::step(
                                                g1.edges@,
                                                Direction::Outgoing,
                                                a2,
                                                w,
                                            ) implies vis.contains(w) by {
                                            let kk = choose|kk: int|
                                                0 <= kk < g1.edges@.len() && edge_matches(
                                                    #[trigger] g1.edges@[kk],
                                                    Direction::Outgoing,
                                                    a2,
                                                ) && edge_nb(g1.edges@[kk], Direction::Outgoing)
                                                    == w;
                                            assert(old(self).edges@[kk].0 < old(
                                                self,
                                            ).entries@.len());
                                        }
                                        let kn = choose|kn: nat|
                                            crate::walk::reachable_within(
                                                g1.edges@,
                                                Direction::Outgoing,
                                                vis,
                                                src,
                                                kn,
                                            );
                                        crate::walk::lemma_closed_complete(
                                            g1.edges@,
                                            Direction::Outgoing,
                                            vis,
                                            vis,
                                            src,
                                            kn,
                                        );
                                        assert(vis.contains(src));
                                    }
                                }
                            }
                        }
                    }
                    return GetOutcome::Done(Err(NodeError::Cyclic(nodes)));
                },
                None => {
                    self.add_edge(src, dst_id);
                },
            }
        }
        if !self.entries[dst_id].started() {
            let ghost g2 = *self;
            self.remove_deps(dst_id);
            self.entries[dst_id].start_run();
            let t = self.entries[dst_id].current_run_token();
            proof {
                // A dependency edge recorded above has the source as its
                // first endpoint, so dropping the destination's stale
                // outgoing edges keeps it.
                match src_id {
                    Some(s) => {
                        assert(has_edge(self.edges@, s, dst_id)) by {
                            let k = choose|k: int|
                                0 <= k < g2.edges@.len() && edge_matches(
                                    #[trigger] g2.edges@[k],
                                    Direction::Outgoing,
                                    s,
                                ) && edge_nb(g2.edges@[k], Direction::Outgoing) == dst_id;
                            assert(g2.edges@[k] == (s, dst_id));
                            g2.edges@.lemma_filter_contains(
                                |e: (usize, usize)| e.0 != dst_id,
                                k,
                            );
                            assert(self.edges@.contains((s, dst_id)));
                            let m = choose|m: int|
                                0 <= m < self.edges@.len() && self.edges@[m] == (s, dst_id);
                            assert(edge_matches(self.edges@[m], Direction::Outgoing, s));
                        }
                    },
                    None => {},
                }
            }
            return GetOutcome::Started { id: dst_id, run_token: t };
        }
        if self.entries[dst_id].running() {
            return GetOutcome::Wait { id: dst_id };
        }
        let is_dirty = self.entries[dst_id].dirty_flag();
        let unc = self.entries[dst_id].unc_deps();
        let cacheable = self.entries[dst_id].node.cacheable;
        if is_dirty || unc || !cacheable {
            let t = self.entries[dst_id].current_run_token();
            let deps = self.dep_ids(dst_id);
            return GetOutcome::CleanCheck { id: dst_id, run_token: t, deps };
        }
        let gen = self.entries[dst_id].current_generation();
        match &self.entries[dst_id].state {
            EntryState::Completed { result, .. } => match result {
                Ok(item) => GetOutcome::Done(Ok((*item, gen))),
                Err(e) => GetOutcome::Done(Err(e.duplicate())),
            },
            _ => {
                proof {
                    assert(false);
                }
                GetOutcome::Done(Err(NodeError::Invalidated))
            },
        }
    }

    /// Request `node` as an external caller: shorthand for a sourceless
    /// [`Graph::get`], which is always retry-eligible.
    pub fn create(&mut self, node: Node) -> (r: GetOutcome)
        requires
            old(self).wf(),
        ensures
            final(self).wf(),
            Graph::advances(*old(self), *final(self)),
            old(self).woken@.is_prefix_of(final(self).woken@),
            old(self).draining ==> *final(self) == *old(self) && invalidated_outcome(r),
            !old(self).draining ==> {
                &&& final(self).draining == old(self).draining
                &&& final(self).entries@.len() == (if old(self).has_node(node) {
                    old(self).entries@.len()
                } else {
                    old(self).entries@.len() + 1
                })
                &&& final(self).entries@[old(self).node_index(node)].node == node
            },
            (!old(self).draining && old(self).has_node(node)) ==> {
                let idx = old(self).node_index(node);
                let e = old(self).entries@[idx];
                &&& (e.is_running() ==> *final(self) == *old(self) && r == (GetOutcome::Wait {
                    id: idx as usize,
                }))
                &&& (hit_eligible(e) ==> *final(self) == *old(self) && done_of(
                    cached(e),
                    e.generation(),
                    r,
                ))
                &&& ((e.state is Completed && !hit_eligible(e)) ==> *final(self) == *old(self)
                    && (match r {
                    GetOutcome::CleanCheck { id, run_token, deps } => {
                        &&& id == idx as usize
                        &&& run_token == e.run_token()
                        &&& deps@ == Graph::dep_ids_of(old(self).edges@, idx as usize)
                    },
                    _ => false,
                }))
            },
            (!old(self).draining && (!old(self).has_node(node) || old(self).entries@[old(
                self,
            ).node_index(node)].state is NotStarted)) ==> {
                let idx = old(self).node_index(node);
                &&& r == (GetOutcome::Started {
                    id: idx as usize,
                    run_token: bump(pre_token(*old(self), node)),
                })
                &&& final(self).entries@[idx].state == (EntryState::Running {
                    run_token: bump(pre_token(*old(self), node)),
                    generation: pre_generation(*old(self), node),
                    previous_result: pre_previous(*old(self), node),
                })
                &&& final(self).entries@[idx].node == node
                &&& final(self).edges@ == old(self).edges@.filter(
                    |e: (usize, usize)| e.0 != idx as usize,
                )
                &&& forall|i: int|
                    0 <= i < old(self).entries@.len() && i != idx ==> final(self).entries@[i]
                        == old(self).entries@[i]
                &&& final(self).woken == old(self).woken
            },
    {
        self.get(None, node)
    }

    /// The retry policy of a request: an external request (no source) may be
    /// retried on invalidation, and so may a dependency request from an
    /// uncacheable source, which runs only once and so never observes the
    /// invalidation itself.
    pub fn retry_eligible(&self, src_id: Option<EntryId>) -> (b: bool)
        requires
            self.wf(),
            match src_id {
                Some(s) => s < self.entries@.len(),
                None => true,
            },
        ensures
            b == match src_id {
                None => true,
                Some(s) => !self.entries@[s as int].node.cacheable,
            },
    {
        match src_id {
            None => true,
            Some(s) => !self.entries[s].node.cacheable,
        }
    }

    /// Decide what a retry-eligible caller does with an error after
    /// `attempts` failed attempts: the invalidation error is consumed and the
    /// request retried while the budget of eight attempts lasts, then gives
    /// up with the exhaustion error; any other error surfaces at once.
    pub fn retry_decision(attempts: usize, err: &NodeError) -> (r: RetryDecision)
        ensures
            r is Retry <==> (err_eq(*err, NodeError::Invalidated) && attempts < 8),
            r is GiveUp <==> (err_eq(*err, NodeError::Invalidated) && attempts >= 8),
            r is Surface <==> !err_eq(*err, NodeError::Invalidated),
    {
        if err.is_invalidated() {
            if attempts < 8 {
                RetryDecision::Retry
            } else {
                RetryDecision::GiveUp
            }
        } else {
            RetryDecision::Surface
        }
    }

    /// Long-poll `node`: with no token, the caller should simply request the
    /// node. With a token carrying the last observed generation, the request
    /// proceeds at once when the node has already completed beyond it;
    /// otherwise `waiter` is registered on the entry and fires (appearing in
    /// the woken list) when the entry next completes with a greater
    /// generation, or is cleared. A woken caller requests the node again.
    pub fn poll(&mut self, node: Node, token: Option<LastObserved>, waiter: u64) -> (r: PollOutcome)
        requires
            old(self).wf(),
        ensures
            final(self).wf(),
            Graph::advances(*old(self), *final(self)),
            final(self).edges == old(self).edges,
            final(self).draining == old(self).draining,
            final(self).woken == old(self).woken,
            token is None ==> r is Ready,
            match token {
                Some(t) => {
                    let idx = old(self).node_index(node);
                    let known = old(self).has_node(node);
                    if known && old(self).entries@[idx].state is Completed && old(
                        self,
                    ).entries@[idx].generation() > t.0 {
                        r is Ready && *final(self) == *old(self)
                    } else {
                        &&& r is Suspended
                        &&& final(self).entries@.len() == (if known {
                            old(self).entries@.len()
                        } else {
                            old(self).entries@.len() + 1
                        })
                        &&& final(self).entries@[idx].node == node
                        &&& final(self).entries@[idx].state == (if known {
                            old(self).entries@[idx].state
                        } else {
                            EntryState::NotStarted {
                                run_token: 0u64,
                                generation: 0u64,
                                previous_result: None::<Result<Item, NodeError>>,
                            }
                        })
                        &&& final(self).entries@[idx].poll_waiters@ == (if known {
                            old(self).entries@[idx].poll_waiters@
                        } else {
                            Seq::<PollWaiter>::empty()
                        }).push(PollWaiter { waiter, gate: t.0 })
                        &&& forall|i: int|
                            0 <= i < old(self).entries@.len() && i != idx
                                ==> final(self).entries@[i] == old(self).entries@[i]
                    }
                },
                None => *final(self) == *old(self),
            },
    {
        let t = match token {
            None => {
                return PollOutcome::Ready;
            },
            Some(LastObserved(g)) => g,
        };
        let id = self.ensure_entry(node);
        let ready = self.entries[id].completed() && self.entries[id].current_generation() > t;
        if ready {
            proof {
                assert(old(self).has_node(node));
                assert(*self == *old(self));
            }
            PollOutcome::Ready
        } else {
            self.entries[id].push_waiter(waiter, t);
            PollOutcome::Suspended
        }
    }

    /// Decide whether the dependency edge `src -> dst` may be added. `None`
    /// means it is now safe: no path from `dst` back to `src` remains. A
    /// returned path is a real cycle that the edge would close, with a flag
    /// saying whether it is trustworthy: `true` means every entry on it is
    /// clean, `false` that resolution gave up after ten rounds.
    ///
    /// A detected cycle that runs through dirty entries may be an artifact of
    /// their obsolete edges, so those entries are invalidated (clearing their
    /// edges) and detection retried, up to ten times; a cycle through clean
    /// entries only is reported at once. Each round invalidates only entries
    /// that are dirty when it runs, so an entry that does not (transitively)
    /// depend on an initially dirty entry is never touched.
    pub fn resolve_cycle(&mut self, src_id: usize, dst_id: usize) -> (r: Option<
        (Vec<usize>, bool),
    >)
        requires
            old(self).wf(),
            src_id < old(self).entries@.len(),
            dst_id < old(self).entries@.len(),
        ensures
            final(self).wf(),
            Graph::advances(*old(self), *final(self)),
            final(self).entries@.len() == old(self).entries@.len(),
            final(self).draining == old(self).draining,
            old(self).woken@.is_prefix_of(final(self).woken@),
            forall|k: int|
                0 <= k < final(self).edges@.len() ==> old(self).edges@.contains(
                    #[trigger] final(self).edges@[k],
                ),
            // Resolution only clears or dirties entries; it completes none.
            forall|i: int|
                0 <= i < old(self).entries@.len() && !((#[trigger] old(
                    self,
                ).entries@[i]).state is Completed) ==> !(final(self).entries@[i].state
                    is Completed),
            r is None ==> src_id != dst_id && !reaches(final(self).edges@, dst_id, src_id),
            match r {
                Some(p) => {
                    &&& cycle_shape(final(self).edges@, src_id, dst_id, p.0@)
                    &&& forall|i: int|
                        0 <= i < p.0@.len() ==> #[trigger] p.0@[i] < final(self).entries@.len()
                    &&& (p.1 ==> forall|i: int|
                        0 <= i < p.0@.len() ==> final(self).entries@[(
                        #[trigger] p.0@[i]) as int].is_clean())
                    &&& forall|q: Seq<usize>|
                        q.len() >= 1 && q[0] == dst_id && q[q.len() - 1] == src_id
                            && #[trigger] crate::cycle::is_edge_path(final(self).edges@, q)
                            ==> p.0@.len() <= q.len() + 1
                },
                None => true,
            },
            // Policy: only entries that transitively depend on an entry that
            // was already dirty are touched, and dirtiness never spreads
            // beyond those dependents.
            forall|i: int|
                0 <= i < old(self).entries@.len() && !reachable(
                    old(self).edges@,
                    Direction::Incoming,
                    dirty_ids(*old(self)),
                    i as usize,
                ) ==> #[trigger] final(self).entries@[i] == old(self).entries@[i],
            forall|i: int|
                0 <= i < old(self).entries@.len()
                    && (#[trigger] final(self).entries@[i]).is_dirty() ==> reachable(
                    old(self).edges@,
                    Direction::Incoming,
                    dirty_ids(*old(self)),
                    i as usize,
                ),
            all_clean(*old(self)) ==> *final(self) == *old(self),
            (all_clean(*old(self)) && (src_id == dst_id || reaches(
                old(self).edges@,
                dst_id,
                src_id,
            ))) ==> r is Some,
            (all_clean(*old(self)) && src_id != dst_id && !reaches(
                old(self).edges@,
                dst_id,
                src_id,
            )) ==> r is None,
            // An existing path from dst back to src none of whose ids depends
            // on a dirty entry survives every resolution round, so the cycle
            // is reported.
            (exists|q: Seq<usize>|
                {
                    &&& q.len() >= 1
                    &&& q[0] == dst_id
                    &&& q[q.len() - 1] == src_id
                    &&& #[trigger] crate::cycle::is_edge_path(old(self).edges@, q)
                    &&& forall|x: int|
                        0 <= x < q.len() ==> !reachable(
                            old(self).edges@,
                            Direction::Incoming,
                            dirty_ids(*old(self)),
                            #[trigger] q[x],
                        )
                }) ==> r is Some,
            (src_id == dst_id && old(self).entries@[dst_id as int].is_clean()) ==> {
                &&& *final(self) == *old(self)
                &&& match r {
                    Some(p) => p.0@ == seq![dst_id, dst_id] && p.1,
                    None => false,
                }
            },
    {
        let ghost g0 = *self;
        let n_entries = self.entries.len();
        proof {
            assert(g0.entries@.len() == n_entries);
            assert forall|i: int|
                0 <= i < g0.entries@.len() && (#[trigger] g0.entries@[i]).is_dirty()
                    implies reachable(
                g0.edges@,
                Direction::Incoming,
                dirty_ids(g0),
                i as usize,
            ) by {
                assert(dirty_ids(g0).contains(i as usize));
                crate::walk::lemma_reachable_root(
                    g0.edges@,
                    Direction::Incoming,
                    dirty_ids(g0),
                    i as usize,
                );
            }
        }
        let mut attempts: usize = 0;
        loop
            invariant
                g0 == *old(self),
                self.wf(),
                attempts <= 10,
                src_id < self.entries@.len(),
                dst_id < self.entries@.len(),
                self.entries@.len() == g0.entries@.len(),
                self.draining == g0.draining,
                Graph::advances(g0, *self),
                g0.woken@.is_prefix_of(self.woken@),
                all_clean(g0) ==> *self == g0,
                (src_id == dst_id && g0.entries@[dst_id as int].is_clean()) ==> *self == g0,
                forall|k: int|
                    0 <= k < self.edges@.len() ==> g0.edges@.contains(#[trigger] self.edges@[k]),
                forall|i: int|
                    0 <= i < g0.entries@.len() && !((#[trigger] g0.entries@[i]).state
                        is Completed) ==> !(self.entries@[i].state is Completed),
                forall|i: int|
                    0 <= i < g0.entries@.len() && !reachable(
                        g0.edges@,
                        Direction::Incoming,
                        dirty_ids(g0),
                        i as usize,
                    ) ==> #[trigger] self.entries@[i] == g0.entries@[i],
                forall|i: int|
                    0 <= i < g0.entries@.len() && (#[trigger] self.entries@[i]).is_dirty()
                        ==> reachable(
                        g0.edges@,
                        Direction::Incoming,
                        dirty_ids(g0),
                        i as usize,
                    ),
                forall|k2: int|
                    0 <= k2 < g0.edges@.len() && !reachable(
                        g0.edges@,
                        Direction::Incoming,
                        dirty_ids(g0),
                        (#[trigger] g0.edges@[k2]).0,
                    ) ==> self.edges@.contains(g0.edges@[k2]),
            decreases 10 - attempts,
        {
            match self.report_cycle(src_id, dst_id) {
                None => {
                    proof {
                        if exists|q: Seq<usize>|
                            {
                                &&& q.len() >= 1
                                &&& q[0] == dst_id
                                &&& q[q.len() - 1] == src_id
                                &&& #[trigger] crate::cycle::is_edge_path(g0.edges@, q)
                                &&& forall|x: int|
                                    0 <= x < q.len() ==> !reachable(
                                        g0.edges@,
                                        Direction::Incoming,
                                        dirty_ids(g0),
                                        #[trigger] q[x],
                                    )
                            } {
                            let q = choose|q: Seq<usize>|
                                {
                                    &&& q.len() >= 1
                                    &&& q[0] == dst_id
                                    &&& q[q.len() - 1] == src_id
                                    &&& #[trigger] crate::cycle::is_edge_path(g0.edges@, q)
                                    &&& forall|x: int|
                                        0 <= x < q.len() ==> !reachable(
                                            g0.edges@,
                                            Direction::Incoming,
                                            dirty_ids(g0),
                                            #[trigger] q[x],
                                        )
                                };
                            assert(crate::cycle::is_edge_path(self.edges@, q)) by {
                                assert forall|x: int| 0 <= x < q.len() - 1 implies has_edge(
                                    self.edges@,
                                    #[trigger] q[x],
                                    q[x + 1],
                                ) by {
                                    assert(has_edge(g0.edges@, q[x], q[x + 1]));
                                    let kk = choose|kk: int|
                                        0 <= kk < g0.edges@.len() && edge_matches(
                                            #[trigger] g0.edges@[kk],
                                            Direction::Outgoing,
                                            q[x],
                                        ) && edge_nb(g0.edges@[kk], Direction::Outgoing) == q[x
                                            + 1];
                                    assert(g0.edges@[kk] == (q[x], q[x + 1]));
                                    assert(!reachable(
                                        g0.edges@,
                                        Direction::Incoming,
                                        dirty_ids(g0),
                                        g0.edges@[kk].0,
                                    ));
                                    assert(self.edges@.contains(g0.edges@[kk]));
                                    let mm = choose|mm: int|
                                        0 <= mm < self.edges@.len() && self.edges@[mm] == (
                                        q[x],
                                        q[x + 1],
                                        );
                                    assert(edge_matches(
                                        self.edges@[mm],
                                        Direction::Outgoing,
                                        q[x],
                                    ));
                                }
                            }
                            crate::cycle::lemma_edge_path_within(self.edges@, q);
                            assert(reaches(self.edges@, dst_id, src_id));
                        }
                    }
                    return None;
                },
                Some(path) => {
                    let mut dirty_nodes: Vec<Node> = Vec::new();
                    let mut j: usize = 0;
                    while j < path.len()
                        invariant
                            j <= path@.len(),
                            forall|x: int|
                                0 <= x < path@.len() ==> #[trigger] path@[x]
                                    < self.entries@.len(),
                            (forall|x: int|
                                0 <= x < path@.len() ==> self.entries@[(
                                #[trigger] path@[x]) as int].is_clean()) ==> dirty_nodes@.len()
                                == 0,
                            dirty_nodes@.len() > 0 ==> exists|x: int|
                                0 <= x < path@.len() && self.entries@[(
                                #[trigger] path@[x]) as int].is_dirty(),
                            dirty_nodes@.len() == 0 ==> forall|x: int|
                                0 <= x < j ==> self.entries@[(
                                #[trigger] path@[x]) as int].is_clean(),
                            forall|x: int|
                                0 <= x < dirty_nodes@.len() ==> exists|id2: int|
                                    0 <= id2 < self.entries@.len() && self.entries@[id2].node
                                        == #[trigger] dirty_nodes@[x] && self.entries@[id2].is_dirty(),
                        decreases path@.len() - j,
                    {
                        let id = path[j];
                        if self.entries[id].dirty_flag() {
                            proof {
                                assert(self.entries@[path@[j as int] as int].is_dirty());
                            }
                            dirty_nodes.push(self.entries[id].node);
                        }
                        j += 1;
                    }
                    if dirty_nodes.len() == 0 {
                        return Some((path, true));
                    }
                    if attempts == 10 {
                        return Some((path, false));
                    }
                    proof {
                        let xd = choose|x: int|
                            0 <= x < path@.len() && self.entries@[(
                            #[trigger] path@[x]) as int].is_dirty();
                        assert(!all_clean(*self)) by {
                            if all_clean(*self) {
                                assert(self.entries@[path@[xd] as int].is_clean());
                            }
                        }
                        assert(!all_clean(g0)) by {
                            if all_clean(g0) {
                                assert(*self == g0);
                            }
                        }
                        assert(!(src_id == dst_id && g0.entries@[dst_id as int].is_clean())) by {
                            if src_id == dst_id && g0.entries@[dst_id as int].is_clean() {
                                assert(*self == g0);
                                assert(path@ == seq![dst_id, dst_id]);
                                assert(path@[xd] == dst_id);
                                assert(self.entries@[dst_id as int].is_dirty());
                            }
                        }
                    }
                    attempts += 1;
                    let ghost mid = *self;
                    self.invalidate_from_roots(&dirty_nodes);
                    proof {
                        assert(Graph::advances(g0, *self)) by {
                            assert forall|i: int| 0 <= i < g0.entries@.len() implies entry_advances(
                                g0.entries@[i],
                                #[trigger] self.entries@[i],
                            ) by {
                                assert(entry_advances(g0.entries@[i], mid.entries@[i]));
                                assert(entry_advances(mid.entries@[i], self.entries@[i]));
                            }
                        }
                        assert(g0.woken@.is_prefix_of(self.woken@)) by {
                            assert(mid.woken@.subrange(0, g0.woken@.len() as int) =~= g0.woken@);
                            assert(self.woken@.subrange(0, mid.woken@.len() as int) =~= mid.woken@);
                            assert(self.woken@.subrange(0, g0.woken@.len() as int) =~= g0.woken@);
                        }
                        assert forall|k: int|
                            0 <= k < self.edges@.len() implies g0.edges@.contains(
                            #[trigger] self.edges@[k],
                        ) by {
                            assert(mid.edges@.contains(self.edges@[k]));
                            let m = choose|m: int|
                                0 <= m < mid.edges@.len() && mid.edges@[m] == self.edges@[k];
                            assert(g0.edges@.contains(mid.edges@[m]));
                        }
                        assert forall|i: int|
                            0 <= i < g0.entries@.len() && !((#[trigger] g0.entries@[i]).state
                                is Completed) implies !(self.entries@[i].state is Completed) by {
                            if mid.is_inv_root(dirty_nodes@, i) {
                            } else if mid.is_inv_dependent(dirty_nodes@, i) {
                                assert(Graph::dirtied_entry(mid.entries@[i], self.entries@[i]));
                            } else {
                                assert(self.entries@[i] == mid.entries@[i]);
                            }
                        }
                        // Every invalidation root of this round was dirty when
                        // the round ran, hence (by the running invariant) a
                        // transitive dependent of an initially dirty entry.
                        assert forall|m: usize|
                            mid.inv_roots(dirty_nodes@).contains(m) implies reachable(
                            g0.edges@,
                            Direction::Incoming,
                            dirty_ids(g0),
                            m,
                        ) by {
                            assert(mid.is_inv_root(dirty_nodes@, m as int));
                            assert(dirty_nodes@.contains(mid.entries@[m as int].node));
                            let x = choose|x: int|
                                0 <= x < dirty_nodes@.len() && dirty_nodes@[x] == mid.entries@[m
                                    as int].node;
                            let id2 = choose|id2: int|
                                0 <= id2 < mid.entries@.len() && mid.entries@[id2].node
                                    == dirty_nodes@[x] && mid.entries@[id2].is_dirty();
                            assert(id2 == m as int);
                            assert(mid.entries@[m as int].is_dirty());
                        }
                        assert forall|i: int|
                            0 <= i < g0.entries@.len() && !reachable(
                                g0.edges@,
                                Direction::Incoming,
                                dirty_ids(g0),
                                i as usize,
                            ) implies #[trigger] self.entries@[i] == g0.entries@[i] by {
                            if mid.is_inv_root(dirty_nodes@, i) {
                                assert(mid.inv_roots(dirty_nodes@).contains(i as usize));
                                assert(reachable(
                                    g0.edges@,
                                    Direction::Incoming,
                                    dirty_ids(g0),
                                    i as usize,
                                ));
                            } else if mid.is_inv_dependent(dirty_nodes@, i) {
                                assert(reachable(
                                    mid.edges@,
                                    Direction::Incoming,
                                    mid.inv_roots(dirty_nodes@),
                                    i as usize,
                                ));
                                lemma_reachable_mono_edges(
                                    mid.edges@,
                                    g0.edges@,
                                    Direction::Incoming,
                                    mid.inv_roots(dirty_nodes@),
                                    i as usize,
                                );
                                lemma_reachable_trans(
                                    g0.edges@,
                                    Direction::Incoming,
                                    dirty_ids(g0),
                                    mid.inv_roots(dirty_nodes@),
                                    i as usize,
                                );
                            } else {
                                assert(self.entries@[i] == mid.entries@[i]);
                            }
                        }
                        assert forall|k2: int|
                            0 <= k2 < g0.edges@.len() && !reachable(
                                g0.edges@,
                                Direction::Incoming,
                                dirty_ids(g0),
                                (#[trigger] g0.edges@[k2]).0,
                            ) implies self.edges@.contains(g0.edges@[k2]) by {
                            assert(mid.edges@.contains(g0.edges@[k2]));
                            let m2 = choose|m2: int|
                                0 <= m2 < mid.edges@.len() && mid.edges@[m2] == g0.edges@[k2];
                            assert(!mid.is_inv_root(dirty_nodes@, mid.edges@[m2].0 as int)) by {
                                if mid.is_inv_root(dirty_nodes@, mid.edges@[m2].0 as int) {
                                    assert(mid.inv_roots(dirty_nodes@).contains(
                                        mid.edges@[m2].0,
                                    ));
                                    assert(reachable(
                                        g0.edges@,
                                        Direction::Incoming,
                                        dirty_ids(g0),
                                        mid.edges@[m2].0,
                                    ));
                                }
                            }
                            assert(self.edges@.contains(mid.edges@[m2]));
                        }
                        assert forall|i: int|
                            0 <= i < g0.entries@.len() && (#[trigger] self.entries@[i]).is_dirty()
                                implies reachable(
                            g0.edges@,
                            Direction::Incoming,
                            dirty_ids(g0),
                            i as usize,
                        ) by {
                            if mid.is_inv_root(dirty_nodes@, i) {
                                assert(Graph::cleared_entry(mid.entries@[i], self.entries@[i]));
                            } else if mid.is_inv_dependent(dirty_nodes@, i) {
                                assert(reachable(
                                    mid.edges@,
                                    Direction::Incoming,
                                    mid.inv_roots(dirty_nodes@),
                                    i as usize,
                                ));
                                lemma_reachable_mono_edges(
                                    mid.edges@,
                                    g0.edges@,
                                    Direction::Incoming,
                                    mid.inv_roots(dirty_nodes@),
                                    i as usize,
                                );
                                lemma_reachable_trans(
                                    g0.edges@,
                                    Direction::Incoming,
                                    dirty_ids(g0),
                                    mid.inv_roots(dirty_nodes@),
                                    i as usize,
                                );
                            } else {
                                assert(self.entries@[i] == mid.entries@[i]);
                            }
                        }
                    }
                },
            }
        }
    }
}

} // verus!

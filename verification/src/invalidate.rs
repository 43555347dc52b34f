//! External invalidation: clearing a set of root entries and dirtying their
//! transitive dependents.

use vstd::prelude::*;

use crate::entry::{bump, entry_advances, Entry, EntryState, PollWaiter};
use crate::node::Node;
use crate::walk::{reachable, Direction};
use crate::{Graph, InvalidationResult};

verus! {

/// Whether `node` occurs in `roots`.
pub fn node_in(roots: &Vec<Node>, node: Node) -> (b: bool)
    ensures
        b == roots@.contains(node),
{
    let mut i: usize = 0;
    while i < roots.len()
        invariant
            i <= roots@.len(),
            forall|j: int| 0 <= j < i ==> roots@[j] != node,
        decreases roots@.len() - i,
    {
        if roots[i] == node {
            return true;
        }
        i += 1;
    }
    false
}

/// Whether `id` occurs in `ids`.
pub fn id_in(ids: &Vec<usize>, id: usize) -> (b: bool)
    ensures
        b == ids@.contains(id),
{
    let mut i: usize = 0;
    while i < ids.len()
        invariant
            i <= ids@.len(),
            forall|j: int| 0 <= j < i ==> ids@[j] != id,
        decreases ids@.len() - i,
    {
        if ids[i] == id {
            return true;
        }
        i += 1;
    }
    false
}

impl Graph {
    /// The entry at `i` is an invalidation root for `roots`: its node matches
    /// and it has started (a `NotStarted` entry needs no clearing, and its
    /// dependents were already dirtied or never observed a value for it).
    pub open spec fn is_inv_root(self, roots: Seq<Node>, i: int) -> bool {
        &&& 0 <= i < self.entries@.len()
        &&& roots.contains(self.entries@[i].node)
        &&& self.entries@[i].is_started()
    }

    /// The ids of all invalidation roots for `roots`.
    pub open spec fn inv_roots(self, roots: Seq<Node>) -> Set<usize> {
        Set::new(|i: usize| self.is_inv_root(roots, i as int))
    }

    /// The entry at `i` transitively depends on an invalidation root (and is
    /// not itself one): it is dirtied, not cleared.
    pub open spec fn is_inv_dependent(self, roots: Seq<Node>, i: int) -> bool {
        &&& 0 <= i < self.entries@.len()
        &&& !self.is_inv_root(roots, i)
        &&& reachable(self.edges@, Direction::Incoming, self.inv_roots(roots), i as usize)
    }

    /// The ids of all transitive dependents of the invalidation roots.
    pub open spec fn inv_dependents(self, roots: Seq<Node>) -> Set<usize> {
        Set::new(|i: usize| self.is_inv_dependent(roots, i as int))
    }

    /// The shape of an entry after it was cleared by invalidation.
    pub open spec fn cleared_entry(before: Entry, after: Entry) -> bool {
        &&& after.node == before.node
        &&& after.state == (EntryState::NotStarted {
            run_token: bump(before.run_token()),
            generation: before.generation(),
            previous_result: before.previous_result(),
        })
        &&& after.poll_waiters@.len() == 0
    }

    /// The shape of an entry after it was dirtied by invalidation: a completed
    /// entry gets the dirty bit (keeping its edges and value for a later
    /// clean-check), a running one gets a bumped run token, a not-started one
    /// is untouched.
    pub open spec fn dirtied_entry(before: Entry, after: Entry) -> bool {
        &&& after.node == before.node
        &&& after.poll_waiters == before.poll_waiters
        &&& after.state == (match before.state {
            EntryState::NotStarted { run_token, generation, previous_result } =>
                EntryState::NotStarted { run_token, generation, previous_result },
            EntryState::Running { run_token, generation, previous_result } => EntryState::Running {
                run_token: bump(run_token),
                generation,
                previous_result,
            },
            EntryState::Completed {
                run_token,
                generation,
                result,
                dep_generations,
                has_uncacheable_deps,
                dirty: _,
            } => EntryState::Completed {
                run_token,
                generation,
                result,
                dep_generations,
                has_uncacheable_deps,
                dirty: true,
            },
        })
    }

    /// Clear every started entry whose node is in `roots` (dropping its value,
    /// removing its outgoing edges, bumping its run token and firing its poll
    /// waiters), and dirty every transitive dependent of a cleared root.
    /// Returns how many entries were cleared and how many dirtied.
    #[verifier::loop_isolation(false)]
    pub fn invalidate_from_roots(&mut self, roots: &Vec<Node>) -> (r: InvalidationResult)
        requires
            old(self).wf(),
        ensures
            final(self).wf(),
            Graph::advances(*old(self), *final(self)),
            final(self).entries@.len() == old(self).entries@.len(),
            final(self).draining == old(self).draining,
            // Every matching started root is cleared,
            forall|i: int|
                old(self).is_inv_root(roots@, i) ==> Graph::cleared_entry(
                    old(self).entries@[i],
                    #[trigger] final(self).entries@[i],
                ),
            // every transitive dependent of a root is dirtied,
            forall|i: int|
                old(self).is_inv_dependent(roots@, i) ==> Graph::dirtied_entry(
                    old(self).entries@[i],
                    #[trigger] final(self).entries@[i],
                ),
            // and every other entry is untouched.
            forall|i: int|
                0 <= i < old(self).entries@.len() && !old(self).is_inv_root(roots@, i) && !old(
                    self,
                ).is_inv_dependent(roots@, i) ==> #[trigger] final(self).entries@[i] == old(
                    self,
                ).entries@[i],
            // The surviving edges are exactly those not sourced at a root.
            forall|k: int|
                0 <= k < final(self).edges@.len() ==> old(self).edges@.contains(
                    #[trigger] final(self).edges@[k],
                ) && !old(self).is_inv_root(roots@, final(self).edges@[k].0 as int),
            forall|k: int|
                0 <= k < old(self).edges@.len() && !old(self).is_inv_root(
                    roots@,
                    (#[trigger] old(self).edges@[k]).0 as int,
                ) ==> final(self).edges@.contains(old(self).edges@[k]),
            // The counts are the sizes of the cleared and dirtied sets.
            r.cleared == old(self).inv_roots(roots@).len(),
            r.dirtied == old(self).inv_dependents(roots@).len(),
            // Poll waiters of cleared roots fire.
            old(self).woken@.is_prefix_of(final(self).woken@),
            forall|i: int, k: int|
                old(self).is_inv_root(roots@, i) && 0 <= k < old(
                    self,
                ).entries@[i].poll_waiters@.len() ==> final(self).woken@.contains(
                    (#[trigger] old(self).entries@[i].poll_waiters@[k]).waiter,
                ),
    {
        let n = self.entries.len();
        let ghost g0 = *self;

        // Collect the ids of all invalidation roots.
        let mut root_ids: Vec<usize> = Vec::new();
        let mut i: usize = 0;
        while i < n
            invariant
                *self == g0,
                self.wf(),
                n == self.entries@.len(),
                i <= n,
                root_ids@.no_duplicates(),
                forall|j: int| 0 <= j < root_ids@.len() ==> #[trigger] root_ids@[j] < i,
                forall|v: usize| root_ids@.contains(v) ==> g0.is_inv_root(roots@, v as int),
                forall|v: usize|
                    (v as int) < i && g0.is_inv_root(roots@, v as int) ==> root_ids@.contains(v),
            decreases n - i,
        {
            let matches = node_in(roots, self.entries[i].node);
            if matches && self.entries[i].started() {
                let ghost before = root_ids@;
                root_ids.push(i);
                proof {
                    assert forall|v: usize| root_ids@.contains(v) implies g0.is_inv_root(
                        roots@,
                        v as int,
                    ) by {
                        let j = choose|j: int| 0 <= j < root_ids@.len() && root_ids@[j] == v;
                        if j < before.len() {
                            assert(before[j] == v);
                            assert(before.contains(v));
                        } else {
                            assert(v == i);
                            assert(g0.entries@[i as int].is_started());
                            assert(roots@.contains(g0.entries@[i as int].node));
                        }
                    }
                    assert forall|v: usize|
                        (v as int) < i + 1 && g0.is_inv_root(roots@, v as int) implies root_ids@
                        .contains(v) by {
                        if (v as int) < i {
                            assert(before.contains(v));
                            let j = choose|j: int| 0 <= j < before.len() && before[j] == v;
                            assert(root_ids@[j] == v);
                        } else {
                            assert(root_ids@[root_ids@.len() - 1] == v);
                        }
                    }
                }
            }
            i += 1;
        }
        proof {
            assert(root_ids@.to_set() =~= g0.inv_roots(roots@)) by {
                assert forall|v: usize| #[trigger]
                    root_ids@.to_set().contains(v) implies g0.inv_roots(roots@).contains(v) by {}
                assert forall|v: usize| #[trigger]
                    g0.inv_roots(roots@).contains(v) implies root_ids@.to_set().contains(v) by {
                    assert(root_ids@.contains(v));
                }
            }
            root_ids@.unique_seq_to_set();
        }

        // Everything that depends on a root, minus the roots themselves, is
        // dirtied rather than cleared.
        let walked = self.walk(&root_ids, Direction::Incoming);
        let mut dirtied_ids: Vec<usize> = Vec::new();
        let mut w: usize = 0;
        while w < walked.len()
            invariant
                w <= walked@.len(),
                walked@.no_duplicates(),
                forall|j: int| 0 <= j < walked@.len() ==> #[trigger] walked@[j] < n,
                forall|v: usize|
                    walked@.contains(v) <==> reachable(
                        g0.edges@,
                        Direction::Incoming,
                        g0.inv_roots(roots@),
                        v,
                    ),
                root_ids@.to_set() == g0.inv_roots(roots@),
                dirtied_ids@.no_duplicates(),
                forall|j: int| 0 <= j < dirtied_ids@.len() ==> #[trigger] dirtied_ids@[j] < n,
                forall|v: usize|
                    dirtied_ids@.contains(v) ==> g0.is_inv_dependent(roots@, v as int),
                forall|x: usize|
                    dirtied_ids@.contains(x) ==> exists|j: int|
                        0 <= j < w && #[trigger] walked@[j] == x,
                forall|j: int|
                    0 <= j < w && g0.is_inv_dependent(roots@, walked@[j] as int) ==> dirtied_ids@
                        .contains(#[trigger] walked@[j]),
            decreases walked@.len() - w,
        {
            let v = walked[w];
            if !id_in(&root_ids, v) {
                let ghost before = dirtied_ids@;
                proof {
                    assert(walked@.contains(v)) by {
                        assert(walked@[w as int] == v);
                    }
                    assert(!g0.inv_roots(roots@).contains(v));
                    assert(g0.is_inv_dependent(roots@, v as int));
                    assert(!before.contains(v)) by {
                        if before.contains(v) {
                            let j = choose|j: int| 0 <= j < w && walked@[j] == v;
                            assert(walked@[w as int] == v);
                            assert(walked@[j] == walked@[w as int]);
                        }
                    }
                }
                dirtied_ids.push(v);
                proof {
                    assert forall|x: usize| dirtied_ids@.contains(x) implies g0.is_inv_dependent(
                        roots@,
                        x as int,
                    ) by {
                        let j = choose|j: int| 0 <= j < dirtied_ids@.len() && dirtied_ids@[j] == x;
                        if j < before.len() {
                            assert(before[j] == x);
                            assert(before.contains(x));
                        } else {
                            assert(x == v);
                        }
                    }
                    assert forall|x: usize| dirtied_ids@.contains(x) implies exists|j: int|
                        0 <= j < w + 1 && #[trigger] walked@[j] == x by {
                        let m = choose|m: int|
                            0 <= m < dirtied_ids@.len() && dirtied_ids@[m] == x;
                        if m < before.len() {
                            assert(before[m] == x);
                            assert(before.contains(x));
                            let j = choose|j: int| 0 <= j < w && walked@[j] == x;
                            assert(walked@[j] == x);
                        } else {
                            assert(walked@[w as int] == x);
                        }
                    }
                    assert forall|j: int|
                        0 <= j < w + 1 && g0.is_inv_dependent(
                            roots@,
                            walked@[j] as int,
                        ) implies dirtied_ids@.contains(#[trigger] walked@[j]) by {
                        if j < w {
                            assert(before.contains(walked@[j]));
                            let m = choose|m: int| 0 <= m < before.len() && before[m] == walked@[j];
                            assert(dirtied_ids@[m] == walked@[j]);
                        } else {
                            assert(dirtied_ids@[dirtied_ids@.len() - 1] == v);
                        }
                    }
                }
            } else {
                proof {
                    assert forall|x: usize| dirtied_ids@.contains(x) implies exists|j: int|
                        0 <= j < w + 1 && #[trigger] walked@[j] == x by {
                        let j = choose|j: int| 0 <= j < w && walked@[j] == x;
                        assert(walked@[j] == x);
                    }
                    assert(root_ids@.contains(v));
                    assert(g0.inv_roots(roots@).contains(v));
                    assert(!g0.is_inv_dependent(roots@, walked@[w as int] as int));
                }
            }
            w += 1;
        }
        proof {
            assert(dirtied_ids@.to_set() =~= g0.inv_dependents(roots@)) by {
                assert forall|v: usize| #[trigger]
                    g0.inv_dependents(roots@).contains(v) implies dirtied_ids@.to_set().contains(
                    v,
                ) by {
                    assert(reachable(g0.edges@, Direction::Incoming, g0.inv_roots(roots@), v));
                    assert(walked@.contains(v));
                    let j = choose|j: int| 0 <= j < walked@.len() && walked@[j] == v;
                    assert(dirtied_ids@.contains(walked@[j]));
                }
            }
            dirtied_ids@.unique_seq_to_set();
        }

        let cleared_count = root_ids.len();
        let dirtied_count = dirtied_ids.len();

        // Clear the roots, firing their poll waiters.
        let mut c: usize = 0;
        while c < cleared_count
            invariant
                c <= cleared_count,
                cleared_count == root_ids@.len(),
                self.entries@.len() == n,
                n == g0.entries@.len(),
                self.edges == g0.edges,
                self.draining == g0.draining,
                root_ids@.no_duplicates(),
                forall|j: int| 0 <= j < root_ids@.len() ==> #[trigger] root_ids@[j] < n,
                forall|v: usize| root_ids@.contains(v) ==> g0.is_inv_root(roots@, v as int),
                forall|j: int|
                    0 <= j < c ==> Graph::cleared_entry(
                        g0.entries@[root_ids@[j] as int],
                        #[trigger] self.entries@[root_ids@[j] as int],
                    ),
                forall|v: int|
                    0 <= v < n && !root_ids@.subrange(0, c as int).contains(v as usize)
                        ==> #[trigger] self.entries@[v] == g0.entries@[v],
                g0.woken@.is_prefix_of(self.woken@),
                forall|j: int, k: int|
                    0 <= j < c && 0 <= k < g0.entries@[root_ids@[j] as int].poll_waiters@.len()
                        ==> self.woken@.contains(
                        (#[trigger] g0.entries@[root_ids@[j] as int].poll_waiters@[k]).waiter,
                    ),
            decreases cleared_count - c,
        {
            let id = root_ids[c];
            proof {
                assert(!root_ids@.subrange(0, c as int).contains(id)) by {
                    if root_ids@.subrange(0, c as int).contains(id) {
                        let j = choose|j: int|
                            0 <= j < c && root_ids@.subrange(0, c as int)[j] == id;
                        assert(root_ids@[j] == root_ids@[c as int]);
                    }
                }
                assert(self.entries@[id as int] == g0.entries@[id as int]);
            }
            let ghost pre_woken = self.woken@;
            let ws = self.entries[id].take_waiters();
            Graph::append_woken(&mut self.woken, &ws);
            self.entries[id].clear();
            proof {
                assert(self.woken@.subrange(0, pre_woken.len() as int) =~= pre_woken);
                assert forall|m: int| 0 <= m < ws@.len() implies self.woken@.contains(
                    (#[trigger] ws@[m]).waiter,
                ) by {
                    assert(self.woken@[pre_woken.len() + m] == ws@.map_values(
                        |x: PollWaiter| x.waiter,
                    )[m]);
                }
                assert forall|x: u64| pre_woken.contains(x) implies self.woken@.contains(x) by {
                    let j = choose|j: int| 0 <= j < pre_woken.len() && pre_woken[j] == x;
                    assert(self.woken@[j] == x);
                }
                assert(pre_woken.subrange(0, g0.woken@.len() as int) =~= g0.woken@);
                assert(g0.woken@.is_prefix_of(self.woken@)) by {
                    assert(self.woken@.subrange(0, g0.woken@.len() as int) =~= g0.woken@);
                }
                assert forall|v: int|
                    0 <= v < n && !root_ids@.subrange(0, c as int + 1).contains(
                        v as usize,
                    ) implies #[trigger] self.entries@[v] == g0.entries@[v] by {
                    assert(!root_ids@.subrange(0, c as int).contains(v as usize)) by {
                        if root_ids@.subrange(0, c as int).contains(v as usize) {
                            let j = choose|j: int|
                                0 <= j < c && root_ids@.subrange(0, c as int)[j] == v as usize;
                            assert(root_ids@.subrange(0, c as int + 1)[j] == v as usize);
                        }
                    }
                    assert(v != id as int) by {
                        assert(root_ids@.subrange(0, c as int + 1)[c as int] == id);
                    }
                }
                assert forall|j: int|
                    0 <= j < c + 1 implies Graph::cleared_entry(
                        g0.entries@[root_ids@[j] as int],
                        #[trigger] self.entries@[root_ids@[j] as int],
                    ) by {
                    if j < c {
                        assert(root_ids@[j] != id);
                    }
                }
            }
            c += 1;
        }
        proof {
            assert(root_ids@.subrange(0, root_ids@.len() as int) =~= root_ids@);
        }

        // Remove every edge whose source is a cleared root: those dependencies
        // belonged to a run that no longer exists.
        let mut kept_edges: Vec<(usize, usize)> = Vec::new();
        let mut k: usize = 0;
        while k < self.edges.len()
            invariant
                k <= self.edges@.len(),
                self.edges == g0.edges,
                root_ids@.to_set() == g0.inv_roots(roots@),
                forall|j: int| 0 <= j < root_ids@.len() ==> #[trigger] root_ids@[j] < n,
                forall|v: usize| root_ids@.contains(v) ==> g0.is_inv_root(roots@, v as int),
                forall|v: usize| g0.is_inv_root(roots@, v as int) ==> root_ids@.contains(v),
                forall|m: int|
                    0 <= m < kept_edges@.len() ==> g0.edges@.contains(#[trigger] kept_edges@[m])
                        && !g0.is_inv_root(roots@, kept_edges@[m].0 as int),
                forall|m: int|
                    0 <= m < k && !g0.is_inv_root(roots@, (#[trigger] g0.edges@[m]).0 as int)
                        ==> kept_edges@.contains(g0.edges@[m]),
            decreases self.edges@.len() - k,
        {
            let e = self.edges[k];
            if !id_in(&root_ids, e.0) {
                let ghost before = kept_edges@;
                kept_edges.push(e);
                proof {
                    assert(g0.edges@.contains(e)) by {
                        assert(g0.edges@[k as int] == e);
                    }
                    assert forall|m: int|
                        0 <= m < k + 1 && !g0.is_inv_root(
                            roots@,
                            (#[trigger] g0.edges@[m]).0 as int,
                        ) implies kept_edges@.contains(g0.edges@[m]) by {
                        if m < k {
                            assert(before.contains(g0.edges@[m]));
                            let x = choose|x: int|
                                0 <= x < before.len() && before[x] == g0.edges@[m];
                            assert(kept_edges@[x] == g0.edges@[m]);
                        } else {
                            assert(kept_edges@[kept_edges@.len() - 1] == e);
                        }
                    }
                }
            } else {
                proof {
                    assert(g0.is_inv_root(roots@, e.0 as int));
                }
            }
            k += 1;
        }
        self.edges = kept_edges;

        // Dirty the dependents; their edges are kept so that a clean-check can
        // still compare dependency generations.
        let ghost g1 = *self;
        let mut d: usize = 0;
        while d < dirtied_count
            invariant
                d <= dirtied_count,
                dirtied_count == dirtied_ids@.len(),
                self.entries@.len() == n,
                n == g0.entries@.len(),
                n == g1.entries@.len(),
                self.draining == g1.draining,
                self.edges == g1.edges,
                self.woken == g1.woken,
                dirtied_ids@.no_duplicates(),
                forall|j: int| 0 <= j < dirtied_ids@.len() ==> #[trigger] dirtied_ids@[j] < n,
                forall|v: usize|
                    dirtied_ids@.contains(v) ==> g0.is_inv_dependent(roots@, v as int),
                forall|v: usize| root_ids@.contains(v) ==> g0.is_inv_root(roots@, v as int),
                forall|v: usize| g0.is_inv_root(roots@, v as int) ==> root_ids@.contains(v),
                forall|v: int|
                    0 <= v < n && !root_ids@.contains(v as usize) ==> #[trigger] g1.entries@[v]
                        == g0.entries@[v],
                forall|j: int|
                    0 <= j < d ==> Graph::dirtied_entry(
                        g1.entries@[dirtied_ids@[j] as int],
                        #[trigger] self.entries@[dirtied_ids@[j] as int],
                    ),
                forall|v: int|
                    0 <= v < n && !dirtied_ids@.subrange(0, d as int).contains(v as usize)
                        ==> #[trigger] self.entries@[v] == g1.entries@[v],
            decreases dirtied_count - d,
        {
            let id = dirtied_ids[d];
            proof {
                assert(!dirtied_ids@.subrange(0, d as int).contains(id)) by {
                    if dirtied_ids@.subrange(0, d as int).contains(id) {
                        let j = choose|j: int|
                            0 <= j < d && dirtied_ids@.subrange(0, d as int)[j] == id;
                        assert(dirtied_ids@[j] == dirtied_ids@[d as int]);
                    }
                }
                assert(self.entries@[id as int] == g1.entries@[id as int]);
            }
            self.entries[id].dirty();
            proof {
                assert forall|v: int|
                    0 <= v < n && !dirtied_ids@.subrange(0, d as int + 1).contains(
                        v as usize,
                    ) implies #[trigger] self.entries@[v] == g1.entries@[v] by {
                    assert(!dirtied_ids@.subrange(0, d as int).contains(v as usize)) by {
                        if dirtied_ids@.subrange(0, d as int).contains(v as usize) {
                            let j = choose|j: int|
                                0 <= j < d && dirtied_ids@.subrange(0, d as int)[j] == v as usize;
                            assert(dirtied_ids@.subrange(0, d as int + 1)[j] == v as usize);
                        }
                    }
                    assert(v != id as int) by {
                        assert(dirtied_ids@.subrange(0, d as int + 1)[d as int] == id);
                    }
                }
                assert forall|j: int|
                    0 <= j < d + 1 implies Graph::dirtied_entry(
                        g1.entries@[dirtied_ids@[j] as int],
                        #[trigger] self.entries@[dirtied_ids@[j] as int],
                    ) by {
                    if j < d {
                        assert(dirtied_ids@[j] != id);
                    }
                }
            }
            d += 1;
        }

        proof {
            assert(dirtied_ids@.subrange(0, dirtied_ids@.len() as int) =~= dirtied_ids@);
            // Carry per-entry facts from the two mutation phases to the
            // post-state description over the original graph.
            assert forall|i: int|
                old(self).is_inv_root(roots@, i) implies Graph::cleared_entry(
                g0.entries@[i],
                #[trigger] self.entries@[i],
            ) by {
                assert(root_ids@.contains(i as usize));
                let j = choose|j: int| 0 <= j < root_ids@.len() && root_ids@[j] == i as usize;
                assert(Graph::cleared_entry(
                    g0.entries@[root_ids@[j] as int],
                    g1.entries@[root_ids@[j] as int],
                ));
                assert(!dirtied_ids@.contains(i as usize));
                assert(self.entries@[i] == g1.entries@[i]);
            }
            assert forall|i: int|
                old(self).is_inv_dependent(roots@, i) implies Graph::dirtied_entry(
                g0.entries@[i],
                #[trigger] self.entries@[i],
            ) by {
                assert(g0.is_inv_dependent(roots@, (i as usize) as int));
                assert(g0.inv_dependents(roots@).contains(i as usize));
                assert(dirtied_ids@.to_set().contains(i as usize));
                assert(dirtied_ids@.contains(i as usize));
                let j = choose|j: int|
                    0 <= j < dirtied_ids@.len() && dirtied_ids@[j] == i as usize;
                assert(Graph::dirtied_entry(
                    g1.entries@[dirtied_ids@[j] as int],
                    self.entries@[dirtied_ids@[j] as int],
                ));
                assert(!root_ids@.contains(i as usize));
                assert(g1.entries@[i] == g0.entries@[i]);
            }
            assert forall|i: int|
                0 <= i < g0.entries@.len() && !g0.is_inv_root(roots@, i) && !g0.is_inv_dependent(
                    roots@,
                    i,
                ) implies #[trigger] self.entries@[i] == g0.entries@[i] by {
                assert(!root_ids@.contains(i as usize));
                assert(!dirtied_ids@.contains(i as usize));
                assert(g1.entries@[i] == g0.entries@[i]);
                assert(self.entries@[i] == g1.entries@[i]);
            }
            // Well-formedness: nodes never change, and the surviving edges
            // come from the original edge list.
            assert(self.wf()) by {
                assert forall|k2: int|
                    0 <= k2 < self.edges@.len() implies (#[trigger] self.edges@[k2]).0
                    < self.entries@.len() && self.edges@[k2].1 < self.entries@.len() by {
                    assert(g0.edges@.contains(self.edges@[k2]));
                    let m = choose|m: int|
                        0 <= m < g0.edges@.len() && g0.edges@[m] == self.edges@[k2];
                    assert(g0.edges@[m].0 < n && g0.edges@[m].1 < n);
                }
                assert forall|a: int, b: int|
                    0 <= a < self.entries@.len() && 0 <= b < self.entries@.len() && a != b implies (
                #[trigger] self.entries@[a]).node != (#[trigger] self.entries@[b]).node by {
                    assert(self.entries@[a].node == g0.entries@[a].node);
                    assert(self.entries@[b].node == g0.entries@[b].node);
                }
            }
            assert(Graph::advances(g0, *self)) by {
                assert forall|i: int| 0 <= i < g0.entries@.len() implies entry_advances(
                    g0.entries@[i],
                    #[trigger] self.entries@[i],
                ) by {
                    if g0.is_inv_root(roots@, i) {
                    } else if g0.is_inv_dependent(roots@, i) {
                    } else {
                    }
                }
            }
            // The waiters of every cleared root are on the woken list.
            assert forall|i: int, k2: int|
                old(self).is_inv_root(roots@, i) && 0 <= k2 < old(
                    self,
                ).entries@[i].poll_waiters@.len() implies self.woken@.contains(
                (#[trigger] old(self).entries@[i].poll_waiters@[k2]).waiter,
            ) by {
                assert(root_ids@.contains(i as usize));
                let j = choose|j: int| 0 <= j < root_ids@.len() && root_ids@[j] == i as usize;
                assert(g1.woken@.contains(g0.entries@[root_ids@[j] as int].poll_waiters@[k2].waiter));
            }
        }

        InvalidationResult { cleared: cleared_count, dirtied: dirtied_count }
    }
}

} // verus!

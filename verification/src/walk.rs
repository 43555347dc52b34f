//! Breadth-first walks over the dependency edges, and the reachability
//! notions the rest of the engine's contracts are stated over.

use vstd::prelude::*;
use vstd::relations::injective;
use vstd::seq_lib::*;
use vstd::set_lib::*;

use crate::Graph;

verus! {

/// The direction of a walk: along dependency edges (`Outgoing`, towards what
/// an entry depends on) or against them (`Incoming`, towards dependents).
#[derive(Clone, Copy, Debug, PartialEq, Eq, Structural)]
pub enum Direction {
    Outgoing,
    Incoming,
}

/// Whether edge `e` leaves `a` when walking in direction `dir`.
pub open spec fn edge_matches(e: (usize, usize), dir: Direction, a: usize) -> bool {
    match dir {
        Direction::Outgoing => e.0 == a,
        Direction::Incoming => e.1 == a,
    }
}

/// The far endpoint of edge `e` when walking in direction `dir`.
pub open spec fn edge_nb(e: (usize, usize), dir: Direction) -> usize {
    match dir {
        Direction::Outgoing => e.1,
        Direction::Incoming => e.0,
    }
}

/// One step from `a` to `b` in direction `dir`.
pub open spec fn step(edges: Seq<(usize, usize)>, dir: Direction, a: usize, b: usize) -> bool {
    exists|k: int|
        0 <= k < edges.len() && edge_matches(#[trigger] edges[k], dir, a) && edge_nb(
            edges[k],
            dir,
        ) == b
}

/// A dependency edge from `a` to `b` exists.
pub open spec fn has_edge(edges: Seq<(usize, usize)>, a: usize, b: usize) -> bool {
    step(edges, Direction::Outgoing, a, b)
}

/// `b` can be reached from some root by at most `k` steps in direction `dir`.
pub open spec fn reachable_within(
    edges: Seq<(usize, usize)>,
    dir: Direction,
    roots: Set<usize>,
    b: usize,
    k: nat,
) -> bool
    decreases k,
{
    if roots.contains(b) {
        true
    } else if k == 0 {
        false
    } else {
        exists|m: usize|
            reachable_within(edges, dir, roots, m, (k - 1) as nat) && step(edges, dir, m, b)
    }
}

/// `b` can be reached from some root in direction `dir`.
pub open spec fn reachable(
    edges: Seq<(usize, usize)>,
    dir: Direction,
    roots: Set<usize>,
    b: usize,
) -> bool {
    exists|k: nat| reachable_within(edges, dir, roots, b, k)
}

/// `b` can be reached from some root by at most `k` steps in direction `dir`
/// without stepping onward from any id in `stop`: a stopped id can end such a
/// path but never continue one.
pub open spec fn reachable_within_stopped(
    edges: Seq<(usize, usize)>,
    dir: Direction,
    roots: Set<usize>,
    stop: Set<usize>,
    b: usize,
    k: nat,
) -> bool
    decreases k,
{
    if roots.contains(b) {
        true
    } else if k == 0 {
        false
    } else {
        exists|m: usize|
            reachable_within_stopped(edges, dir, roots, stop, m, (k - 1) as nat) && !stop.contains(
                m,
            ) && step(edges, dir, m, b)
    }
}

/// `b` can be reached from some root in direction `dir` without walking
/// through a stopped id.
pub open spec fn reachable_stopped(
    edges: Seq<(usize, usize)>,
    dir: Direction,
    roots: Set<usize>,
    stop: Set<usize>,
    b: usize,
) -> bool {
    exists|k: nat| reachable_within_stopped(edges, dir, roots, stop, b, k)
}

/// With nothing stopped, the stop-respecting walk reaches exactly what the
/// plain one does.
pub proof fn lemma_reachable_unstopped(
    edges: Seq<(usize, usize)>,
    dir: Direction,
    roots: Set<usize>,
    b: usize,
)
    ensures
        reachable_stopped(edges, dir, roots, Set::empty(), b) == reachable(edges, dir, roots, b),
{
    if reachable_stopped(edges, dir, roots, Set::empty(), b) {
        let k = choose|k: nat| reachable_within_stopped(edges, dir, roots, Set::empty(), b, k);
        lemma_unstopped_within(edges, dir, roots, b, k);
        assert(reachable_within(edges, dir, roots, b, k));
    }
    if reachable(edges, dir, roots, b) {
        let k = choose|k: nat| reachable_within(edges, dir, roots, b, k);
        lemma_unstopped_within(edges, dir, roots, b, k);
        assert(reachable_within_stopped(edges, dir, roots, Set::empty(), b, k));
    }
}

proof fn lemma_unstopped_within(
    edges: Seq<(usize, usize)>,
    dir: Direction,
    roots: Set<usize>,
    b: usize,
    k: nat,
)
    ensures
        reachable_within_stopped(edges, dir, roots, Set::empty(), b, k) == reachable_within(
            edges,
            dir,
            roots,
            b,
            k,
        ),
    decreases k,
{
    if !roots.contains(b) && k > 0 {
        if reachable_within_stopped(edges, dir, roots, Set::empty(), b, k) {
            let m = choose|m: usize|
                reachable_within_stopped(edges, dir, roots, Set::empty(), m, (k - 1) as nat)
                    && !Set::<usize>::empty().contains(m) && step(edges, dir, m, b);
            lemma_unstopped_within(edges, dir, roots, m, (k - 1) as nat);
            assert(reachable_within(edges, dir, roots, b, k));
        }
        if reachable_within(edges, dir, roots, b, k) {
            let m = choose|m: usize|
                reachable_within(edges, dir, roots, m, (k - 1) as nat) && step(edges, dir, m, b);
            lemma_unstopped_within(edges, dir, roots, m, (k - 1) as nat);
            assert(!Set::<usize>::empty().contains(m));
            assert(reachable_within_stopped(edges, dir, roots, Set::empty(), b, k));
        }
    }
}

/// Roots reach themselves without stepping anywhere.
pub proof fn lemma_reachable_stopped_root(
    edges: Seq<(usize, usize)>,
    dir: Direction,
    roots: Set<usize>,
    stop: Set<usize>,
    b: usize,
)
    requires
        roots.contains(b),
    ensures
        reachable_stopped(edges, dir, roots, stop, b),
{
    assert(reachable_within_stopped(edges, dir, roots, stop, b, 0));
}

/// A stop-respecting walk extends along a step from an unstopped id.
pub proof fn lemma_reachable_stopped_step(
    edges: Seq<(usize, usize)>,
    dir: Direction,
    roots: Set<usize>,
    stop: Set<usize>,
    m: usize,
    b: usize,
)
    requires
        reachable_stopped(edges, dir, roots, stop, m),
        !stop.contains(m),
        step(edges, dir, m, b),
    ensures
        reachable_stopped(edges, dir, roots, stop, b),
{
    let k = choose|k: nat| reachable_within_stopped(edges, dir, roots, stop, m, k);
    assert(reachable_within_stopped(edges, dir, roots, stop, b, k + 1)) by {
        if !roots.contains(b) {
            assert(reachable_within_stopped(edges, dir, roots, stop, m, ((k + 1) - 1) as nat));
        }
    }
}

/// A set that contains the roots and is closed under steps from its unstopped
/// members contains every stop-respecting reachable id.
pub proof fn lemma_closed_complete_stopped(
    edges: Seq<(usize, usize)>,
    dir: Direction,
    roots: Set<usize>,
    stop: Set<usize>,
    vis: Set<usize>,
    b: usize,
    k: nat,
)
    requires
        roots.subset_of(vis),
        forall|v: usize, w: usize|
            vis.contains(v) && !stop.contains(v) && #[trigger] step(edges, dir, v, w)
                ==> vis.contains(w),
        reachable_within_stopped(edges, dir, roots, stop, b, k),
    ensures
        vis.contains(b),
    decreases k,
{
    if roots.contains(b) {
    } else {
        let m = choose|m: usize|
            reachable_within_stopped(edges, dir, roots, stop, m, (k - 1) as nat) && !stop.contains(
                m,
            ) && step(edges, dir, m, b);
        lemma_closed_complete_stopped(edges, dir, roots, stop, vis, m, (k - 1) as nat);
    }
}

/// Roots reach themselves.
pub proof fn lemma_reachable_root(
    edges: Seq<(usize, usize)>,
    dir: Direction,
    roots: Set<usize>,
    b: usize,
)
    requires
        roots.contains(b),
    ensures
        reachable(edges, dir, roots, b),
{
    assert(reachable_within(edges, dir, roots, b, 0));
}

/// Reachability extends along a step.
pub proof fn lemma_reachable_step(
    edges: Seq<(usize, usize)>,
    dir: Direction,
    roots: Set<usize>,
    m: usize,
    b: usize,
)
    requires
        reachable(edges, dir, roots, m),
        step(edges, dir, m, b),
    ensures
        reachable(edges, dir, roots, b),
{
    let k = choose|k: nat| reachable_within(edges, dir, roots, m, k);
    assert(reachable_within(edges, dir, roots, b, k + 1)) by {
        if !roots.contains(b) {
            assert(reachable_within(edges, dir, roots, m, ((k + 1) - 1) as nat));
        }
    }
}

/// Reachability is monotone in the edge list: a path through a subset of the
/// edges is a path through the whole.
pub proof fn lemma_reachable_mono_edges(
    sub: Seq<(usize, usize)>,
    edges: Seq<(usize, usize)>,
    dir: Direction,
    roots: Set<usize>,
    b: usize,
)
    requires
        forall|k: int| 0 <= k < sub.len() ==> edges.contains(#[trigger] sub[k]),
        reachable(sub, dir, roots, b),
    ensures
        reachable(edges, dir, roots, b),
{
    let k = choose|k: nat| reachable_within(sub, dir, roots, b, k);
    lemma_reachable_mono_edges_within(sub, edges, dir, roots, b, k);
}

proof fn lemma_reachable_mono_edges_within(
    sub: Seq<(usize, usize)>,
    edges: Seq<(usize, usize)>,
    dir: Direction,
    roots: Set<usize>,
    b: usize,
    k: nat,
)
    requires
        forall|j: int| 0 <= j < sub.len() ==> edges.contains(#[trigger] sub[j]),
        reachable_within(sub, dir, roots, b, k),
    ensures
        reachable_within(edges, dir, roots, b, k),
    decreases k,
{
    if roots.contains(b) {
    } else {
        let m = choose|m: usize|
            reachable_within(sub, dir, roots, m, (k - 1) as nat) && step(sub, dir, m, b);
        lemma_reachable_mono_edges_within(sub, edges, dir, roots, m, (k - 1) as nat);
        assert(step(edges, dir, m, b)) by {
            let j = choose|j: int|
                0 <= j < sub.len() && edge_matches(#[trigger] sub[j], dir, m) && edge_nb(
                    sub[j],
                    dir,
                ) == b;
            assert(edges.contains(sub[j]));
            let x = choose|x: int| 0 <= x < edges.len() && edges[x] == sub[j];
            assert(edge_matches(edges[x], dir, m));
        }
        assert(reachable_within(edges, dir, roots, b, k));
    }
}

/// Reachability composes: what is reachable from a set of ids each reachable
/// from some base set is reachable from that base set.
pub proof fn lemma_reachable_trans(
    edges: Seq<(usize, usize)>,
    dir: Direction,
    base: Set<usize>,
    mids: Set<usize>,
    b: usize,
)
    requires
        forall|m: usize| mids.contains(m) ==> reachable(edges, dir, base, m),
        reachable(edges, dir, mids, b),
    ensures
        reachable(edges, dir, base, b),
{
    let k = choose|k: nat| reachable_within(edges, dir, mids, b, k);
    lemma_reachable_trans_within(edges, dir, base, mids, b, k);
}

proof fn lemma_reachable_trans_within(
    edges: Seq<(usize, usize)>,
    dir: Direction,
    base: Set<usize>,
    mids: Set<usize>,
    b: usize,
    k: nat,
)
    requires
        forall|m: usize| mids.contains(m) ==> reachable(edges, dir, base, m),
        reachable_within(edges, dir, mids, b, k),
    ensures
        reachable(edges, dir, base, b),
    decreases k,
{
    if mids.contains(b) {
        assert(reachable(edges, dir, base, b));
    } else {
        let m = choose|m: usize|
            reachable_within(edges, dir, mids, m, (k - 1) as nat) && step(edges, dir, m, b);
        lemma_reachable_trans_within(edges, dir, base, mids, m, (k - 1) as nat);
        lemma_reachable_step(edges, dir, base, m, b);
    }
}

/// A set that contains the roots and is closed under steps contains every
/// reachable id.
pub proof fn lemma_closed_complete(
    edges: Seq<(usize, usize)>,
    dir: Direction,
    roots: Set<usize>,
    vis: Set<usize>,
    b: usize,
    k: nat,
)
    requires
        roots.subset_of(vis),
        forall|v: usize, w: usize|
            vis.contains(v) && #[trigger] step(edges, dir, v, w) ==> vis.contains(w),
        reachable_within(edges, dir, roots, b, k),
    ensures
        vis.contains(b),
    decreases k,
{
    if roots.contains(b) {
    } else {
        let m = choose|m: usize|
            reachable_within(edges, dir, roots, m, (k - 1) as nat) && step(edges, dir, m, b);
        lemma_closed_complete(edges, dir, roots, vis, m, (k - 1) as nat);
    }
}

/// A duplicate-free sequence of ids below `n` has at most `n` elements.
pub proof fn lemma_bounded_distinct_len(s: Seq<usize>, n: nat)
    requires
        s.no_duplicates(),
        forall|i: int| 0 <= i < s.len() ==> (#[trigger] s[i] as nat) < n,
    ensures
        s.len() <= n,
{
    let f = |v: usize| v as int;
    assert(injective(f));
    s.lemma_no_duplicates_injective(f);
    let mapped = s.map_values(f);
    mapped.unique_seq_to_set();
    assert(mapped.to_set().subset_of(set_int_range(0, n as int))) by {
        assert forall|x: int| mapped.to_set().contains(x) implies set_int_range(
            0,
            n as int,
        ).contains(x) by {
            let i = choose|i: int| 0 <= i < mapped.len() && mapped[i] == x;
            assert((s[i] as nat) < n);
        }
    }
    lemma_int_range(0, n as int);
    lemma_len_subset(mapped.to_set(), set_int_range(0, n as int));
}

/// The set of ids flagged in a stop vector.
pub open spec fn stop_ids(stop: Seq<bool>) -> Set<usize> {
    Set::new(|v: usize| (v as int) < stop.len() && stop[v as int])
}

impl Graph {
    /// Breadth-first walk from `roots` in direction `dir`, stopping at the
    /// flagged ids: a stopped id is yielded when reached but its neighbours
    /// are not enqueued through it. Every id on a stop-respecting path from
    /// the roots appears exactly once.
    pub fn walk_until(&self, roots: &Vec<usize>, dir: Direction, stop: &Vec<bool>) -> (out: Vec<
        usize,
    >)
        requires
            self.wf(),
            forall|i: int| 0 <= i < roots@.len() ==> #[trigger] roots@[i] < self.entries@.len(),
            stop@.len() == self.entries@.len(),
        ensures
            out@.no_duplicates(),
            forall|i: int| 0 <= i < out@.len() ==> #[trigger] out@[i] < self.entries@.len(),
            forall|v: usize|
                out@.contains(v) <==> reachable_stopped(
                    self.edges@,
                    dir,
                    roots@.to_set(),
                    stop_ids(stop@),
                    v,
                ),
    {
        let n = self.entries.len();
        let ghost rootset = roots@.to_set();
        let ghost stopset = stop_ids(stop@);
        let mut visited: Vec<bool> = Vec::new();
        let mut c: usize = 0;
        while c < n
            invariant
                visited@.len() == c,
                c <= n,
                forall|v: int| 0 <= v < c ==> !(#[trigger] visited@[v]),
            decreases n - c,
        {
            visited.push(false);
            c += 1;
        }

        let mut out: Vec<usize> = Vec::new();
        let mut r: usize = 0;
        while r < roots.len()
            invariant
                self.wf(),
                forall|i: int| 0 <= i < roots@.len() ==> #[trigger] roots@[i] < self.entries@.len(),
                rootset == roots@.to_set(),
                stopset == stop_ids(stop@),
                stop@.len() == self.entries@.len(),
                visited@.len() == self.entries@.len(),
                r <= roots@.len(),
                out@.no_duplicates(),
                out@.len() <= self.entries@.len(),
                forall|i: int| 0 <= i < out@.len() ==> #[trigger] out@[i] < self.entries@.len(),
                forall|v: usize|
                    (v as int) < visited@.len() ==> ((#[trigger] visited@[v as int])
                        <==> out@.contains(v)),
                forall|i: int|
                    0 <= i < out@.len() ==> reachable_stopped(
                        self.edges@,
                        dir,
                        rootset,
                        stopset,
                        #[trigger] out@[i],
                    ),
                forall|i: int| 0 <= i < r ==> visited@[#[trigger] roots@[i] as int],
            decreases roots@.len() - r,
        {
            let id = roots[r];
            if !visited[id] {
                let ghost old_out = out@;
                visited.set(id, true);
                out.push(id);
                proof {
                    assert(roots@[r as int] == id);
                    assert(rootset.contains(id));
                    lemma_reachable_stopped_root(self.edges@, dir, rootset, stopset, id);
                    assert(!old_out.contains(id));
                    assert forall|v: usize| (v as int) < visited@.len() implies ((
                    visited@[v as int]) <==> out@.contains(v)) by {
                        if v == id {
                            assert(out@[out@.len() - 1] == id);
                        } else {
                            if old_out.contains(v) {
                                let j = choose|j: int| 0 <= j < old_out.len() && old_out[j] == v;
                                assert(out@[j] == v);
                            }
                            if out@.contains(v) {
                                let j = choose|j: int| 0 <= j < out@.len() && out@[j] == v;
                                assert(old_out[j] == v);
                            }
                        }
                    }
                    assert(out@.no_duplicates()) by {
                        assert(forall|j: int|
                            0 <= j < old_out.len() ==> #[trigger] old_out[j] != id);
                    }
                    lemma_bounded_distinct_len(out@, self.entries@.len() as nat);
                }
            }
            r += 1;
        }

        let mut i: usize = 0;
        while i < out.len()
            invariant
                self.wf(),
                forall|j: int| 0 <= j < roots@.len() ==> #[trigger] roots@[j] < self.entries@.len(),
                rootset == roots@.to_set(),
                stopset == stop_ids(stop@),
                stop@.len() == self.entries@.len(),
                visited@.len() == self.entries@.len(),
                i <= out@.len(),
                out@.no_duplicates(),
                out@.len() <= self.entries@.len(),
                forall|j: int| 0 <= j < out@.len() ==> #[trigger] out@[j] < self.entries@.len(),
                forall|v: usize|
                    (v as int) < visited@.len() ==> ((#[trigger] visited@[v as int])
                        <==> out@.contains(v)),
                forall|j: int|
                    0 <= j < out@.len() ==> reachable_stopped(
                        self.edges@,
                        dir,
                        rootset,
                        stopset,
                        #[trigger] out@[j],
                    ),
                forall|j: int| 0 <= j < roots@.len() ==> visited@[#[trigger] roots@[j] as int],
                forall|j: int, k: int|
                    0 <= j < i && 0 <= k < self.edges@.len() && !stop@[out@[j] as int]
                        && edge_matches(#[trigger] self.edges@[k], dir, #[trigger] out@[j])
                        ==> visited@[edge_nb(self.edges@[k], dir) as int],
            decreases self.entries@.len() - i,
        {
            let cur = out[i];
            if !stop[cur] {
                let mut k: usize = 0;
                while k < self.edges.len()
                    invariant
                        self.wf(),
                        forall|j: int|
                            0 <= j < roots@.len() ==> #[trigger] roots@[j] < self.entries@.len(),
                        rootset == roots@.to_set(),
                        stopset == stop_ids(stop@),
                        stop@.len() == self.entries@.len(),
                        visited@.len() == self.entries@.len(),
                        i < out@.len(),
                        out@[i as int] == cur,
                        !stop@[cur as int],
                        k <= self.edges@.len(),
                        out@.no_duplicates(),
                        out@.len() <= self.entries@.len(),
                        forall|j: int|
                            0 <= j < out@.len() ==> #[trigger] out@[j] < self.entries@.len(),
                        forall|v: usize|
                            (v as int) < visited@.len() ==> ((#[trigger] visited@[v as int])
                                <==> out@.contains(v)),
                        forall|j: int|
                            0 <= j < out@.len() ==> reachable_stopped(
                                self.edges@,
                                dir,
                                rootset,
                                stopset,
                                #[trigger] out@[j],
                            ),
                        forall|j: int|
                            0 <= j < roots@.len() ==> visited@[#[trigger] roots@[j] as int],
                        forall|j: int, kk: int|
                            0 <= j < i && 0 <= kk < self.edges@.len() && !stop@[out@[j] as int]
                                && edge_matches(#[trigger] self.edges@[kk], dir, #[trigger] out@[j])
                                ==> visited@[edge_nb(self.edges@[kk], dir) as int],
                        forall|kk: int|
                            0 <= kk < k && edge_matches(#[trigger] self.edges@[kk], dir, cur)
                                ==> visited@[edge_nb(self.edges@[kk], dir) as int],
                    decreases self.edges@.len() - k,
                {
                    let e = self.edges[k];
                    let matched = match dir {
                        Direction::Outgoing => e.0 == cur,
                        Direction::Incoming => e.1 == cur,
                    };
                    if matched {
                        let nb = match dir {
                            Direction::Outgoing => e.1,
                            Direction::Incoming => e.0,
                        };
                        if !visited[nb] {
                            let ghost old_out = out@;
                            visited.set(nb, true);
                            out.push(nb);
                            proof {
                                assert(step(self.edges@, dir, cur, nb)) by {
                                    assert(edge_matches(self.edges@[k as int], dir, cur));
                                }
                                assert(!stopset.contains(cur));
                                lemma_reachable_stopped_step(
                                    self.edges@,
                                    dir,
                                    rootset,
                                    stopset,
                                    cur,
                                    nb,
                                );
                                assert(!old_out.contains(nb));
                                assert forall|v: usize| (v as int) < visited@.len() implies ((
                                visited@[v as int]) <==> out@.contains(v)) by {
                                    if v == nb {
                                        assert(out@[out@.len() - 1] == nb);
                                    } else {
                                        if old_out.contains(v) {
                                            let j = choose|j: int|
                                                0 <= j < old_out.len() && old_out[j] == v;
                                            assert(out@[j] == v);
                                        }
                                        if out@.contains(v) {
                                            let j = choose|j: int|
                                                0 <= j < out@.len() && out@[j] == v;
                                            assert(old_out[j] == v);
                                        }
                                    }
                                }
                                assert(out@.no_duplicates()) by {
                                    assert(forall|j: int|
                                        0 <= j < old_out.len() ==> #[trigger] old_out[j] != nb);
                                }
                                lemma_bounded_distinct_len(out@, self.entries@.len() as nat);
                            }
                        }
                    }
                    k += 1;
                }
            }
            i += 1;
        }

        proof {
            let vis = Set::new(|v: usize| (v as int) < visited@.len() && visited@[v as int]);
            assert forall|v: usize|
                reachable_stopped(self.edges@, dir, rootset, stopset, v) implies out@.contains(
                v,
            ) by {
                assert(rootset.subset_of(vis)) by {
                    assert forall|x: usize| rootset.contains(x) implies vis.contains(x) by {
                        let j = choose|j: int| 0 <= j < roots@.len() && roots@[j] == x;
                        assert(visited@[roots@[j] as int]);
                    }
                }
                assert(forall|a: usize, w: usize|
                    vis.contains(a) && !stopset.contains(a) && #[trigger] step(
                        self.edges@,
                        dir,
                        a,
                        w,
                    ) ==> vis.contains(w)) by {
                    assert forall|a: usize, w: usize|
                        vis.contains(a) && !stopset.contains(a) && #[trigger] step(
                            self.edges@,
                            dir,
                            a,
                            w,
                        ) implies vis.contains(w) by {
                        let kk = choose|kk: int|
                            0 <= kk < self.edges@.len() && edge_matches(
                                self.edges@[kk],
                                dir,
                                a,
                            ) && edge_nb(self.edges@[kk], dir) == w;
                        assert(out@.contains(a));
                        let j = choose|j: int| 0 <= j < out@.len() && out@[j] == a;
                        assert(!stop@[a as int]);
                        assert(visited@[edge_nb(self.edges@[kk], dir) as int]);
                    }
                }
                let k = choose|k: nat|
                    reachable_within_stopped(self.edges@, dir, rootset, stopset, v, k);
                lemma_closed_complete_stopped(self.edges@, dir, rootset, stopset, vis, v, k);
            }
        }
        out
    }

    /// Breadth-first walk from `roots` in direction `dir`: returns every
    /// entry id reachable from the roots (roots included), each exactly once.
    pub fn walk(&self, roots: &Vec<usize>, dir: Direction) -> (out: Vec<usize>)
        requires
            self.wf(),
            forall|i: int| 0 <= i < roots@.len() ==> #[trigger] roots@[i] < self.entries@.len(),
        ensures
            out@.no_duplicates(),
            forall|i: int| 0 <= i < out@.len() ==> #[trigger] out@[i] < self.entries@.len(),
            forall|v: usize|
                out@.contains(v) <==> reachable(self.edges@, dir, roots@.to_set(), v),
    {
        let n = self.entries.len();
        let mut stop: Vec<bool> = Vec::new();
        let mut c: usize = 0;
        while c < n
            invariant
                stop@.len() == c,
                c <= n,
                forall|v: int| 0 <= v < c ==> !(#[trigger] stop@[v]),
            decreases n - c,
        {
            stop.push(false);
            c += 1;
        }
        let out = self.walk_until(roots, dir, &stop);
        proof {
            assert(stop_ids(stop@) =~= Set::<usize>::empty()) by {
                assert forall|v: usize| !(#[trigger] stop_ids(stop@).contains(v)) by {
                    if (v as int) < stop@.len() {
                        assert(!stop@[v as int]);
                    }
                }
            }
            assert forall|v: usize|
                out@.contains(v) == reachable(self.edges@, dir, roots@.to_set(), v) by {
                lemma_reachable_unstopped(self.edges@, dir, roots@.to_set(), v);
                assert(reachable_stopped(self.edges@, dir, roots@.to_set(), stop_ids(stop@), v)
                    == reachable_stopped(
                    self.edges@,
                    dir,
                    roots@.to_set(),
                    Set::<usize>::empty(),
                    v,
                ));
            }
        }
        out
    }
}

} // verus!

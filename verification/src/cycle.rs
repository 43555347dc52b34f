//! Cycle detection at edge-insertion time, and the resolution loop that
//! clears dirty entries whose obsolete edges fake a cycle.

use vstd::prelude::*;

use crate::walk::{has_edge, lemma_bounded_distinct_len, lemma_closed_complete, lemma_reachable_root, lemma_reachable_step, reachable, reachable_within, step, Direction};
use crate::Graph;

verus! {

/// The set holding exactly the id `a`.
pub open spec fn single_root(a: usize) -> Set<usize> {
    Set::new(|x: usize| x == a)
}

/// `b` can be reached from `a` along dependency edges.
pub open spec fn reaches(edges: Seq<(usize, usize)>, a: usize, b: usize) -> bool {
    reachable(edges, Direction::Outgoing, single_root(a), b)
}

/// Consecutive elements of `p` are dependency edges.
pub open spec fn is_edge_path(edges: Seq<(usize, usize)>, p: Seq<usize>) -> bool {
    forall|i: int| 0 <= i < p.len() - 1 ==> has_edge(edges, #[trigger] p[i], p[i + 1])
}

/// The shape of a reported cycle for a requested edge `src -> dst`: the
/// existing path from `dst` back to `src`, followed by `dst` again (the
/// requested edge would close it). A self-edge reports `[dst, dst]`.
pub open spec fn cycle_shape(edges: Seq<(usize, usize)>, src: usize, dst: usize, c: Seq<usize>) -> bool {
    &&& c.len() >= 2
    &&& c[0] == dst
    &&& c[c.len() - 1] == dst
    &&& c[c.len() - 2] == src
    &&& is_edge_path(edges, c.subrange(0, c.len() - 1))
}

/// No entry of the graph is marked dirty.
pub open spec fn all_clean(g: Graph) -> bool {
    forall|i: int| 0 <= i < g.entries@.len() ==> (#[trigger] g.entries@[i]).is_clean()
}

/// The ids of the graph's dirty entries.
pub open spec fn dirty_ids(g: Graph) -> Set<usize> {
    Set::new(|i: usize| (i as int) < g.entries@.len() && g.entries@[i as int].is_dirty())
}

/// An edge path of `k + 1` ids witnesses reachability within `k` steps.
pub proof fn lemma_edge_path_within(edges: Seq<(usize, usize)>, q: Seq<usize>)
    requires
        q.len() >= 1,
        is_edge_path(edges, q),
    ensures
        reachable_within(
            edges,
            Direction::Outgoing,
            single_root(q[0]),
            q[q.len() - 1],
            (q.len() - 1) as nat,
        ),
    decreases q.len(),
{
    if q.len() == 1 {
        assert(single_root(q[0]).contains(q[0]));
    } else {
        let q0 = q.drop_last();
        assert(is_edge_path(edges, q0)) by {
            assert forall|i: int| 0 <= i < q0.len() - 1 implies has_edge(
                edges,
                #[trigger] q0[i],
                q0[i + 1],
            ) by {
                assert(q0[i] == q[i] && q0[i + 1] == q[i + 1]);
            }
        }
        lemma_edge_path_within(edges, q0);
        assert(has_edge(edges, q[q.len() - 2], q[q.len() - 1]));
        assert(reachable_within(
            edges,
            Direction::Outgoing,
            single_root(q[0]),
            q[q.len() - 1],
            (q.len() - 1) as nat,
        )) by {
            if !single_root(q[0]).contains(q[q.len() - 1]) {
                assert(reachable_within(
                    edges,
                    Direction::Outgoing,
                    single_root(q[0]),
                    q0[q0.len() - 1],
                    ((q.len() - 1) - 1) as nat,
                ));
            }
        }
    }
}

/// Breadth-first distances underestimate every walk: whatever is reachable
/// within `k` steps of `from` is visited at distance at most `k`, provided the
/// visited set is closed under edges with the distances relaxed.
pub proof fn lemma_min_dist(
    edges: Seq<(usize, usize)>,
    from: usize,
    visited: Seq<bool>,
    dist: Seq<usize>,
    w: usize,
    k: nat,
)
    requires
        dist.len() == visited.len(),
        (from as int) < visited.len(),
        visited[from as int],
        dist[from as int] == 0,
        forall|a: usize, b: usize|
            (a as int) < visited.len() && visited[a as int] && #[trigger] step(
                edges,
                Direction::Outgoing,
                a,
                b,
            ) ==> (b as int) < visited.len() && visited[b as int] && dist[b as int] <= dist[a
                as int] + 1,
        reachable_within(edges, Direction::Outgoing, single_root(from), w, k),
    ensures
        (w as int) < visited.len() && visited[w as int] && dist[w as int] <= k,
    decreases k,
{
    if single_root(from).contains(w) {
        assert(w == from);
    } else {
        let m = choose|m: usize|
            reachable_within(edges, Direction::Outgoing, single_root(from), m, (k - 1) as nat)
                && step(edges, Direction::Outgoing, m, w);
        lemma_min_dist(edges, from, visited, dist, m, (k - 1) as nat);
    }
}

impl Graph {
    /// Whether adding an edge `src -> dst` would create a cycle through
    /// existing edges, i.e. whether `src` is reachable from `dst`.
    pub fn detect_cycle(&self, src_id: usize, dst_id: usize) -> (r: bool)
        requires
            self.wf(),
            src_id < self.entries@.len(),
            dst_id < self.entries@.len(),
        ensures
            r == reaches(self.edges@, dst_id, src_id),
    {
        let mut roots: Vec<usize> = Vec::new();
        roots.push(dst_id);
        let out = self.walk(&roots, Direction::Outgoing);
        proof {
            assert(roots@.to_set() =~= single_root(dst_id)) by {
                assert(roots@[0] == dst_id);
                assert forall|x: usize| roots@.to_set().contains(x) implies x == dst_id by {
                    let j = choose|j: int| 0 <= j < roots@.len() && roots@[j] == x;
                }
                assert(roots@.contains(dst_id));
            }
            assert(roots@.to_set() == single_root(dst_id));
            assert(reachable(self.edges@, Direction::Outgoing, roots@.to_set(), src_id) == reaches(
                self.edges@,
                dst_id,
                src_id,
            ));
            assert(out@.contains(src_id) == reaches(self.edges@, dst_id, src_id));
        }
        crate::invalidate::id_in(&out, src_id)
    }

    /// One shortest dependency path from `from` to `to`, as entry ids, found
    /// by breadth-first search: no edge path between the two is shorter.
    /// `None` exactly when `to` is unreachable.
    #[verifier::loop_isolation(false)]
    pub fn shortest_path(&self, from: usize, to: usize) -> (r: Option<Vec<usize>>)
        requires
            self.wf(),
            from < self.entries@.len(),
            to < self.entries@.len(),
        ensures
            r is Some <==> reaches(self.edges@, from, to),
            match r {
                Some(p) => {
                    &&& p@.len() >= 1
                    &&& p@[0] == from
                    &&& p@[p@.len() - 1] == to
                    &&& forall|i: int| 0 <= i < p@.len() ==> #[trigger] p@[i] < self.entries@.len()
                    &&& is_edge_path(self.edges@, p@)
                    &&& forall|q: Seq<usize>|
                        q.len() >= 1 && q[0] == from && q[q.len() - 1] == to && #[trigger] is_edge_path(
                            self.edges@,
                            q,
                        ) ==> p@.len() <= q.len()
                },
                None => !reaches(self.edges@, from, to),
            },
    {
        let n = self.entries.len();
        let ghost rootset = single_root(from);
        let mut visited: Vec<bool> = Vec::new();
        let mut pred: Vec<usize> = Vec::new();
        let mut pos: Vec<usize> = Vec::new();
        let mut dist: Vec<usize> = Vec::new();
        let mut c: usize = 0;
        while c < n
            invariant
                visited@.len() == c,
                pred@.len() == c,
                pos@.len() == c,
                dist@.len() == c,
                c <= n,
                forall|v: int| 0 <= v < c ==> !(#[trigger] visited@[v]),
                forall|v: int| 0 <= v < c ==> (#[trigger] dist@[v]) == 0,
            decreases n - c,
        {
            visited.push(false);
            pred.push(0);
            pos.push(0);
            dist.push(0);
            c += 1;
        }

        let mut out: Vec<usize> = Vec::new();
        visited.set(from, true);
        pos.set(from, 0);
        out.push(from);
        proof {
            assert(rootset.contains(from));
            lemma_reachable_root(self.edges@, Direction::Outgoing, rootset, from);
            assert(out@[0] == from);
            assert forall|v: usize| (v as int) < n implies ((visited@[v as int]) <==> out@.contains(
                v,
            )) by {
                if v != from {
                    if out@.contains(v) {
                        let j = choose|j: int| 0 <= j < out@.len() && out@[j] == v;
                        assert(j == 0);
                    }
                }
            }
        }

        let mut i: usize = 0;
        while i < out.len()
            invariant
                visited@.len() == n,
                pred@.len() == n,
                pos@.len() == n,
                dist@.len() == n,
                i <= out@.len(),
                out@.no_duplicates(),
                out@.len() <= n,
                forall|j: int| 0 <= j < out@.len() ==> #[trigger] out@[j] < n,
                forall|v: usize|
                    (v as int) < n ==> ((#[trigger] visited@[v as int]) <==> out@.contains(v)),
                visited@[from as int],
                dist@[from as int] == 0,
                forall|j: int| 0 <= j < out@.len() ==> pos@[#[trigger] out@[j] as int] == j,
                forall|v: usize|
                    (v as int) < n && visited@[v as int] ==> (#[trigger] dist@[v as int])
                        <= pos@[v as int] < out@.len(),
                forall|j1: int, j2: int|
                    0 <= j1 <= j2 < out@.len() ==> dist@[#[trigger] out@[j1] as int]
                        <= dist@[#[trigger] out@[j2] as int],
                i < out@.len() ==> forall|j: int|
                    0 <= j < out@.len() ==> dist@[#[trigger] out@[j] as int]
                        <= dist@[out@[i as int] as int] + 1,
                forall|j: int|
                    0 <= j < out@.len() ==> reachable(
                        self.edges@,
                        Direction::Outgoing,
                        rootset,
                        #[trigger] out@[j],
                    ),
                forall|v: usize|
                    (v as int) < n && visited@[v as int] && v != from ==> {
                        &&& (#[trigger] pred@[v as int]) < n
                        &&& visited@[pred@[v as int] as int]
                        &&& has_edge(self.edges@, pred@[v as int], v)
                        &&& pos@[pred@[v as int] as int] < pos@[v as int]
                        &&& dist@[v as int] == dist@[pred@[v as int] as int] + 1
                    },
                forall|j: int, k: int|
                    0 <= j < i && 0 <= k < self.edges@.len() && (#[trigger] self.edges@[k]).0
                        == #[trigger] out@[j] ==> visited@[self.edges@[k].1 as int]
                        && dist@[self.edges@[k].1 as int] <= dist@[out@[j] as int] + 1,
            decreases n - i,
        {
            let cur = out[i];
            let mut k: usize = 0;
            while k < self.edges.len()
                invariant
                    i < out@.len(),
                    out@[i as int] == cur,
                    k <= self.edges@.len(),
                    visited@.len() == n,
                    pred@.len() == n,
                    pos@.len() == n,
                    dist@.len() == n,
                    out@.no_duplicates(),
                    out@.len() <= n,
                    forall|j: int| 0 <= j < out@.len() ==> #[trigger] out@[j] < n,
                    forall|v: usize|
                        (v as int) < n ==> ((#[trigger] visited@[v as int]) <==> out@.contains(v)),
                    visited@[from as int],
                    dist@[from as int] == 0,
                    forall|j: int| 0 <= j < out@.len() ==> pos@[#[trigger] out@[j] as int] == j,
                    forall|v: usize|
                        (v as int) < n && visited@[v as int] ==> (#[trigger] dist@[v as int])
                            <= pos@[v as int] < out@.len(),
                    forall|j1: int, j2: int|
                        0 <= j1 <= j2 < out@.len() ==> dist@[#[trigger] out@[j1] as int]
                            <= dist@[#[trigger] out@[j2] as int],
                    forall|j: int|
                        0 <= j < out@.len() ==> dist@[#[trigger] out@[j] as int]
                            <= dist@[out@[i as int] as int] + 1,
                    forall|j: int|
                        0 <= j < out@.len() ==> reachable(
                            self.edges@,
                            Direction::Outgoing,
                            rootset,
                            #[trigger] out@[j],
                        ),
                    forall|v: usize|
                        (v as int) < n && visited@[v as int] && v != from ==> {
                            &&& (#[trigger] pred@[v as int]) < n
                            &&& visited@[pred@[v as int] as int]
                            &&& has_edge(self.edges@, pred@[v as int], v)
                            &&& pos@[pred@[v as int] as int] < pos@[v as int]
                            &&& dist@[v as int] == dist@[pred@[v as int] as int] + 1
                        },
                    forall|j: int, kk: int|
                        0 <= j < i && 0 <= kk < self.edges@.len() && (#[trigger] self.edges@[kk]).0
                            == #[trigger] out@[j] ==> visited@[self.edges@[kk].1 as int]
                            && dist@[self.edges@[kk].1 as int] <= dist@[out@[j] as int] + 1,
                    forall|kk: int|
                        0 <= kk < k && (#[trigger] self.edges@[kk]).0 == cur
                            ==> visited@[self.edges@[kk].1 as int]
                            && dist@[self.edges@[kk].1 as int] <= dist@[cur as int] + 1,
                decreases self.edges@.len() - k,
            {
                let e = self.edges[k];
                if e.0 == cur {
                    let nb = e.1;
                    if !visited[nb] {
                        let ghost old_out = out@;
                        let d = dist[cur] + 1;
                        visited.set(nb, true);
                        pred.set(nb, cur);
                        pos.set(nb, out.len());
                        dist.set(nb, d);
                        out.push(nb);
                        proof {
                            assert(step(self.edges@, Direction::Outgoing, cur, nb)) by {
                                assert(crate::walk::edge_matches(
                                    self.edges@[k as int],
                                    Direction::Outgoing,
                                    cur,
                                ));
                            }
                            lemma_reachable_step(
                                self.edges@,
                                Direction::Outgoing,
                                rootset,
                                cur,
                                nb,
                            );
                            assert(has_edge(self.edges@, cur, nb));
                            assert(!old_out.contains(nb));
                            assert forall|v: usize| (v as int) < n implies ((
                            visited@[v as int]) <==> out@.contains(v)) by {
                                if v == nb {
                                    assert(out@[out@.len() - 1] == nb);
                                } else {
                                    if old_out.contains(v) {
                                        let j = choose|j: int|
                                            0 <= j < old_out.len() && old_out[j] == v;
                                        assert(out@[j] == v);
                                    }
                                    if out@.contains(v) {
                                        let j = choose|j: int|
                                            0 <= j < out@.len() && out@[j] == v;
                                        assert(old_out[j] == v);
                                    }
                                }
                            }
                            assert(out@.no_duplicates()) by {
                                assert(forall|j: int|
                                    0 <= j < old_out.len() ==> #[trigger] old_out[j] != nb);
                            }
                            lemma_bounded_distinct_len(out@, n as nat);
                        }
                    }
                }
                k += 1;
            }
            i += 1;
        }

        if !visited[to] {
            proof {
                let vis = Set::new(|v: usize| (v as int) < n && visited@[v as int]);
                assert forall|v: usize|
                    reachable(self.edges@, Direction::Outgoing, rootset, v) implies vis.contains(
                    v,
                ) by {
                    assert(rootset.subset_of(vis));
                    assert(forall|a: usize, w: usize|
                        vis.contains(a) && #[trigger] step(
                            self.edges@,
                            Direction::Outgoing,
                            a,
                            w,
                        ) ==> vis.contains(w)) by {
                        assert forall|a: usize, w: usize|
                            vis.contains(a) && #[trigger] step(
                                self.edges@,
                                Direction::Outgoing,
                                a,
                                w,
                            ) implies vis.contains(w) by {
                            let kk = choose|kk: int|
                                0 <= kk < self.edges@.len() && crate::walk::edge_matches(
                                    #[trigger] self.edges@[kk],
                                    Direction::Outgoing,
                                    a,
                                ) && crate::walk::edge_nb(self.edges@[kk], Direction::Outgoing)
                                    == w;
                            assert(out@.contains(a));
                            let j = choose|j: int| 0 <= j < out@.len() && out@[j] == a;
                            assert(visited@[self.edges@[kk].1 as int]);
                        }
                    }
                    let kn = choose|kn: nat|
                        reachable_within(self.edges@, Direction::Outgoing, rootset, v, kn);
                    lemma_closed_complete(
                        self.edges@,
                        Direction::Outgoing,
                        rootset,
                        vis,
                        v,
                        kn,
                    );
                }
                assert(!reaches(self.edges@, from, to)) by {
                    if reaches(self.edges@, from, to) {
                        assert(reachable(self.edges@, Direction::Outgoing, rootset, to));
                        assert(vis.contains(to));
                    }
                }
            }
            return None;
        }

        // Walk the predecessor chain back from `to`, then reverse it. Its
        // length is pinned by the breadth-first distance of `to`.
        let mut rev: Vec<usize> = Vec::new();
        rev.push(to);
        let mut cur = to;
        while cur != from
            invariant
                rev@.len() >= 1,
                rev@[0] == to,
                rev@[rev@.len() - 1] == cur,
                cur < n,
                visited@[cur as int],
                rev@.len() + dist@[cur as int] == dist@[to as int] + 1,
                forall|j: int| 0 <= j < rev@.len() ==> #[trigger] rev@[j] < n,
                forall|j: int|
                    0 <= j < rev@.len() - 1 ==> has_edge(
                        self.edges@,
                        rev@[j + 1],
                        #[trigger] rev@[j],
                    ),
            decreases pos@[cur as int],
        {
            let p = pred[cur];
            rev.push(p);
            cur = p;
        }

        let mut path: Vec<usize> = Vec::new();
        let m = rev.len();
        let mut j: usize = 0;
        while j < m
            invariant
                m == rev@.len(),
                j <= m,
                path@.len() == j,
                forall|x: int| 0 <= x < j ==> #[trigger] path@[x] == rev@[m - 1 - x],
            decreases m - j,
        {
            path.push(rev[m - 1 - j]);
            j += 1;
        }
        proof {
            assert(path@[0] == rev@[m - 1]);
            assert(path@[path@.len() - 1] == rev@[0]);
            assert(reaches(self.edges@, from, to)) by {
                assert(out@.contains(to));
                assert(reachable(self.edges@, Direction::Outgoing, rootset, to));
            }
            assert forall|x: int| 0 <= x < path@.len() - 1 implies has_edge(
                self.edges@,
                #[trigger] path@[x],
                path@[x + 1],
            ) by {
                assert(path@[x] == rev@[m - 1 - x]);
                assert(path@[x + 1] == rev@[m - 1 - (x + 1)]);
                assert(has_edge(self.edges@, rev@[(m - 2 - x) + 1], rev@[m - 2 - x]));
            }
            // Minimality: the breadth-first distances underestimate every
            // edge path, and the returned path attains the distance of `to`.
            assert(path@.len() == dist@[to as int] + 1);
            assert forall|q: Seq<usize>|
                q.len() >= 1 && q[0] == from && q[q.len() - 1] == to && #[trigger] is_edge_path(
                    self.edges@,
                    q,
                ) implies path@.len() <= q.len() by {
                lemma_edge_path_within(self.edges@, q);
                lemma_min_dist(
                    self.edges@,
                    from,
                    visited@,
                    dist@,
                    to,
                    (q.len() - 1) as nat,
                );
            }
        }
        Some(path)
    }

    /// Report the cycle that adding `src -> dst` would close, if any: the
    /// shortest existing path from `dst` back to `src`, with `dst` appended.
    /// A self-edge always reports `[dst, dst]`. `None` means the edge is safe.
    pub fn report_cycle(&self, src_id: usize, dst_id: usize) -> (r: Option<Vec<usize>>)
        requires
            self.wf(),
            src_id < self.entries@.len(),
            dst_id < self.entries@.len(),
        ensures
            r is Some <==> (src_id == dst_id || reaches(self.edges@, dst_id, src_id)),
            match r {
                Some(c) => {
                    &&& cycle_shape(self.edges@, src_id, dst_id, c@)
                    &&& forall|i: int| 0 <= i < c@.len() ==> #[trigger] c@[i] < self.entries@.len()
                    &&& forall|q: Seq<usize>|
                        q.len() >= 1 && q[0] == dst_id && q[q.len() - 1] == src_id
                            && #[trigger] is_edge_path(self.edges@, q) ==> c@.len() <= q.len() + 1
                },
                None => true,
            },
            src_id == dst_id ==> match r {
                Some(c) => c@ == seq![dst_id, dst_id],
                None => false,
            },
    {
        if src_id == dst_id {
            let mut c: Vec<usize> = Vec::new();
            c.push(dst_id);
            c.push(dst_id);
            proof {
                assert(c@.subrange(0, 1).len() == 1);
                assert(cycle_shape(self.edges@, src_id, dst_id, c@));
                assert(c@ =~= seq![dst_id, dst_id]);
            }
            return Some(c);
        }
        if !self.detect_cycle(src_id, dst_id) {
            return None;
        }
        match self.shortest_path(dst_id, src_id) {
            Some(mut p) => {
                let ghost pv = p@;
                p.push(dst_id);
                proof {
                    assert(p@.subrange(0, p@.len() - 1) =~= pv);
                    assert(cycle_shape(self.edges@, src_id, dst_id, p@));
                }
                Some(p)
            },
            None => {
                proof {
                    assert(false);
                }
                None
            },
        }
    }
}

} // verus!

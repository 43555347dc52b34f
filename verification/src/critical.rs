//! The critical path: a heaviest dependency path from a set of root nodes,
//! weighting each entry by a caller-supplied duration.

use vstd::prelude::*;

use crate::cycle::{is_edge_path, lemma_edge_path_within, reaches};
use crate::invalidate::node_in;
use crate::node::Node;
use crate::walk::{has_edge, Direction};
use vstd::relations::injective;
use vstd::seq_lib::*;
use vstd::set_lib::*;
use crate::Graph;

verus! {

/// The weight of a path: the sum of the durations of the entries on it.
pub open spec fn path_weight(p: Seq<usize>, durs: Seq<u64>) -> int
    decreases p.len(),
{
    if p.len() == 0 {
        0
    } else {
        path_weight(p.drop_last(), durs) + durs[p.last() as int]
    }
}

/// No dependency cycle: no edge leads back to its own source.
pub open spec fn acyclic(edges: Seq<(usize, usize)>) -> bool {
    forall|a: usize, b: usize| #[trigger] has_edge(edges, a, b) ==> !reaches(edges, b, a)
}

/// A root-anchored simple path: it starts at an entry matching a root node,
/// walks existing edges, and visits no entry twice.
pub open spec fn simple_rooted_path(g: Graph, roots: Seq<Node>, p: Seq<usize>) -> bool {
    &&& p.len() >= 1
    &&& p.no_duplicates()
    &&& forall|i: int| 0 <= i < p.len() ==> (#[trigger] p[i]) < g.entries@.len()
    &&& is_edge_path(g.edges@, p)
    &&& roots.contains(g.entries@[p[0] as int].node)
}

/// An edge path that already visits every entry and still leaves its endpoint
/// for a different entry betrays a cycle: either the path repeats an entry,
/// or it passes through the edge's target, closing the loop.
proof fn lemma_full_witness_blocks(
    g: Graph,
    wit_a: Seq<usize>,
    a: usize,
    b: usize,
)
    requires
        g.wf(),
        is_edge_path(g.edges@, wit_a),
        wit_a.len() == g.entries@.len(),
        wit_a.len() >= 1,
        forall|i: int| 0 <= i < wit_a.len() ==> (#[trigger] wit_a[i]) < g.entries@.len(),
        wit_a[wit_a.len() - 1] == a,
        has_edge(g.edges@, a, b),
        a != b,
        b < g.entries@.len(),
    ensures
        !acyclic(g.edges@) || reaches(g.edges@, b, a),
{
    if !wit_a.no_duplicates() {
        let (i, j) = choose|i: int, j: int|
            0 <= i < j < wit_a.len() && wit_a[i] == wit_a[j];
        let sub = wit_a.subrange(i + 1, j + 1);
        assert(is_edge_path(g.edges@, sub)) by {
            assert forall|x: int| 0 <= x < sub.len() - 1 implies has_edge(
                g.edges@,
                #[trigger] sub[x],
                sub[x + 1],
            ) by {
                assert(sub[x] == wit_a[i + 1 + x] && sub[x + 1] == wit_a[i + 1 + x + 1]);
            }
        }
        assert(sub[0] == wit_a[i + 1] && sub[sub.len() - 1] == wit_a[j]);
        lemma_edge_path_within(g.edges@, sub);
        assert(reaches(g.edges@, wit_a[i + 1], wit_a[i]));
        assert(has_edge(g.edges@, wit_a[i], wit_a[i + 1]));
        assert(!acyclic(g.edges@));
    } else {
        // A duplicate-free path through every entry contains `b` somewhere
        // before its end, so an existing path leads from `b` back to `a`.
        let f = |v: usize| v as int;
        assert(injective(f));
        wit_a.lemma_no_duplicates_injective(f);
        let mapped = wit_a.map_values(f);
        mapped.unique_seq_to_set();
        let n = g.entries@.len() as int;
        assert(mapped.to_set().subset_of(set_int_range(0, n))) by {
            assert forall|x: int| mapped.to_set().contains(x) implies set_int_range(0, n).contains(
                x,
            ) by {
                let ii = choose|ii: int| 0 <= ii < mapped.len() && mapped[ii] == x;
                assert((wit_a[ii] as int) < n);
            }
        }
        lemma_int_range(0, n);
        lemma_subset_equality(mapped.to_set(), set_int_range(0, n));
        assert(set_int_range(0, n).contains(b as int));
        assert(mapped.to_set().contains(b as int));
        let idx = choose|idx: int| 0 <= idx < mapped.len() && mapped[idx] == b as int;
        assert(wit_a[idx] == b);
        assert(idx < wit_a.len() - 1);
        let sub = wit_a.subrange(idx, wit_a.len() as int);
        assert(is_edge_path(g.edges@, sub)) by {
            assert forall|x: int| 0 <= x < sub.len() - 1 implies has_edge(
                g.edges@,
                #[trigger] sub[x],
                sub[x + 1],
            ) by {
                assert(sub[x] == wit_a[idx + x] && sub[x + 1] == wit_a[idx + x + 1]);
            }
        }
        assert(sub[0] == b && sub[sub.len() - 1] == a);
        lemma_edge_path_within(g.edges@, sub);
        assert(reaches(g.edges@, b, a));
    }
}

/// A candidate entry of the search: its witness path `p` with weight `d` is a
/// real path from a root node to `v`, visiting at most one entry each.
pub open spec fn cp_entry_ok(
    g: Graph,
    roots: Seq<Node>,
    durs: Seq<u64>,
    p: Seq<usize>,
    d: u128,
    v: int,
) -> bool {
    &&& 1 <= p.len() <= g.entries@.len()
    &&& forall|i: int| 0 <= i < p.len() ==> (#[trigger] p[i]) < g.entries@.len()
    &&& is_edge_path(g.edges@, p)
    &&& roots.contains(g.entries@[p[0] as int].node)
    &&& p.last() == v
    &&& d as int == path_weight(p, durs)
    &&& d as int <= p.len() * (u64::MAX as int)
}

/// The search state is sound: every reached entry has a valid witness path.
pub open spec fn cp_state_ok(
    g: Graph,
    roots: Seq<Node>,
    durs: Seq<u64>,
    reached: Seq<bool>,
    dist: Seq<u128>,
    wit: Seq<Vec<usize>>,
) -> bool {
    &&& reached.len() == g.entries@.len()
    &&& dist.len() == g.entries@.len()
    &&& wit.len() == g.entries@.len()
    &&& forall|v: int|
        0 <= v < g.entries@.len() && #[trigger] reached[v] ==> cp_entry_ok(
            g,
            roots,
            durs,
            wit[v]@,
            dist[v],
            v,
        )
}

/// Every entry matching a root node has been reached.
pub open spec fn cp_roots_reached(g: Graph, roots: Seq<Node>, reached: Seq<bool>) -> bool {
    forall|v: int|
        0 <= v < g.entries@.len() && roots.contains((#[trigger] g.entries@[v]).node)
            ==> reached[v]
}

impl Graph {
    /// A candidate critical path is sound: it walks existing edges, starts at
    /// an entry matching one of the root nodes, and its recorded total is its
    /// weight under `durs`.
    pub open spec fn sound_critical_path(
        self,
        roots: Seq<Node>,
        durs: Seq<u64>,
        total: int,
        p: Seq<usize>,
    ) -> bool {
        &&& p.len() >= 1
        &&& forall|i: int| 0 <= i < p.len() ==> #[trigger] p[i] < self.entries@.len()
        &&& is_edge_path(self.edges@, p)
        &&& roots.contains(self.entries@[p[0] as int].node)
        &&& total == path_weight(p, durs)
    }

    /// A heaviest dependency path reachable from the entries whose nodes are
    /// in `roots`, where entry `i` weighs `durations[i]`. Returns the path's
    /// total weight and its entry ids, root first; `(0, [])` when no root
    /// matches an entry.
    ///
    /// Edges are relaxed for as many rounds as there are entries, so on an
    /// acyclic graph every path is accounted for; a relaxation that would
    /// extend a witness beyond one visit per entry (possible only through a
    /// cycle) is cut off.
    #[verifier::rlimit(100)]
    pub fn critical_path(&self, roots: &Vec<Node>, durations: &Vec<u64>) -> (r: (u128, Vec<usize>))
        requires
            self.wf(),
            durations@.len() == self.entries@.len(),
        ensures
            r.1@.len() == 0 ==> r.0 == 0,
            r.1@.len() == 0 <==> (forall|i: int|
                0 <= i < self.entries@.len() ==> !roots@.contains(
                    (#[trigger] self.entries@[i]).node,
                )),
            r.1@.len() > 0 ==> self.sound_critical_path(roots@, durations@, r.0 as int, r.1@),
            // On an acyclic graph the result is maximal: no root-anchored
            // simple path outweighs it.
            acyclic(self.edges@) ==> forall|p: Seq<usize>|
                #[trigger] simple_rooted_path(*self, roots@, p) ==> path_weight(p, durations@)
                    <= r.0 as int,
    {
        let n = self.entries.len();
        let mut reached: Vec<bool> = Vec::new();
        let mut dist: Vec<u128> = Vec::new();
        let mut wit: Vec<Vec<usize>> = Vec::new();
        let mut c: usize = 0;
        while c < n
            invariant
                reached@.len() == c,
                dist@.len() == c,
                wit@.len() == c,
                c <= n,
                forall|v: int| 0 <= v < c ==> !(#[trigger] reached@[v]),
            decreases n - c,
        {
            reached.push(false);
            dist.push(0);
            wit.push(Vec::new());
            c += 1;
        }

        // Seed every entry whose node is a root with the one-entry path.
        let mut s: usize = 0;
        while s < n
            invariant
                self.wf(),
                n == self.entries@.len(),
                durations@.len() == n,
                s <= n,
                cp_state_ok(*self, roots@, durations@, reached@, dist@, wit@),
                forall|v: int|
                    0 <= v < s && roots@.contains((#[trigger] self.entries@[v]).node)
                        ==> reached@[v],
                forall|p: Seq<usize>|
                    #[trigger] simple_rooted_path(*self, roots@, p) && p.len() == 1 && (p[0] as int)
                        < s ==> reached@[p[0] as int] && dist@[p[0] as int] as int >= path_weight(
                        p,
                        durations@,
                    ),
            decreases n - s,
        {
            if node_in(roots, self.entries[s].node) {
                let mut p0: Vec<usize> = Vec::new();
                p0.push(s);
                reached.set(s, true);
                dist.set(s, durations[s] as u128);
                wit.set(s, p0);
                proof {
                    let pv = wit@[s as int]@;
                    assert(pv.len() == 1 && pv[0] == s);
                    assert(pv.drop_last() =~= Seq::<usize>::empty());
                    assert(path_weight(Seq::<usize>::empty(), durations@) == 0);
                    assert(path_weight(pv, durations@) == durations@[s as int]);
                    assert(cp_entry_ok(*self, roots@, durations@, pv, dist@[s as int], s as int));
                }
            }
            proof {
                assert forall|p: Seq<usize>|
                    #[trigger] simple_rooted_path(*self, roots@, p) && p.len() == 1 && (p[0] as int)
                        < s + 1 implies reached@[p[0] as int] && dist@[p[0] as int] as int
                    >= path_weight(p, durations@) by {
                    assert(path_weight(p.drop_last(), durations@) == 0);
                    assert(path_weight(p, durations@) == durations@[p[0] as int]);
                    if (p[0] as int) == s as int {
                        assert(roots@.contains(self.entries@[s as int].node));
                        assert(reached@[s as int]);
                        assert(cp_entry_ok(
                            *self,
                            roots@,
                            durations@,
                            wit@[s as int]@,
                            dist@[s as int],
                            s as int,
                        ));
                        assert(dist@[s as int] as int >= durations@[s as int] as int) by {
                            let w = wit@[s as int]@;
                            if w.len() == 1 {
                                assert(w[0] == s);
                                assert(path_weight(w.drop_last(), durations@) == 0);
                            } else {
                                assert(false) by {
                                    assert(w.last() == s);
                                }
                            }
                        }
                    }
                }
            }
            s += 1;
        }

        // Relax every edge once per entry: long paths build up round by round.
        let mut round: usize = 0;
        while round < n
            invariant
                self.wf(),
                n == self.entries@.len(),
                durations@.len() == n,
                round <= n,
                cp_state_ok(*self, roots@, durations@, reached@, dist@, wit@),
                cp_roots_reached(*self, roots@, reached@),
                reached@.len() == n,
                dist@.len() == n,
                acyclic(self.edges@) ==> forall|p: Seq<usize>|
                    #[trigger] simple_rooted_path(*self, roots@, p) && p.len() <= round + 1
                        ==> reached@[p[p.len() - 1] as int] && dist@[p[p.len() - 1] as int] as int
                        >= path_weight(p, durations@),
            decreases n - round,
        {
            let mut k: usize = 0;
            while k < self.edges.len()
                invariant
                    self.wf(),
                    n == self.entries@.len(),
                    durations@.len() == n,
                    k <= self.edges@.len(),
                    cp_state_ok(*self, roots@, durations@, reached@, dist@, wit@),
                    cp_roots_reached(*self, roots@, reached@),
                    reached@.len() == n,
                    dist@.len() == n,
                    round < n,
                    acyclic(self.edges@) ==> forall|p: Seq<usize>|
                        #[trigger] simple_rooted_path(*self, roots@, p) && p.len() <= round + 1
                            ==> reached@[p[p.len() - 1] as int] && dist@[p[p.len() - 1] as int]
                            as int >= path_weight(p, durations@),
                    acyclic(self.edges@) ==> forall|p: Seq<usize>|
                        #[trigger] simple_rooted_path(*self, roots@, p) && 2 <= p.len() <= round + 2
                            && (exists|kk: int|
                            0 <= kk < k && #[trigger] self.edges@[kk] == (
                            p[p.len() - 2],
                            p[p.len() - 1],
                            )) ==> reached@[p[p.len() - 1] as int] && dist@[p[p.len() - 1] as int]
                            as int >= path_weight(p, durations@),
                decreases self.edges@.len() - k,
            {
                let ghost step_reached = reached@;
                let ghost step_dist = dist@;
                let ghost step_wit = wit@;
                let e = self.edges[k];
                let a = e.0;
                let b = e.1;
                if a != b && reached[a] && wit[a].len() < n {
                    proof {
                        assert(cp_entry_ok(
                            *self,
                            roots@,
                            durations@,
                            wit@[a as int]@,
                            dist@[a as int],
                            a as int,
                        ));
                        assert(wit@[a as int]@.len() * (u64::MAX as int) + (u64::MAX as int) <= n
                            * (u64::MAX as int)) by (nonlinear_arith)
                            requires
                                1 <= wit@[a as int]@.len() <= n - 1,
                        ;
                        assert(n * (u64::MAX as int) < u128::MAX as int) by (nonlinear_arith)
                            requires
                                n <= usize::MAX,
                        ;
                    }
                    let cand: u128 = dist[a] + (durations[b] as u128);
                    if !reached[b] || cand > dist[b] {
                        let mut newp = copy_ids(&wit[a]);
                        newp.push(b);
                        reached.set(b, true);
                        dist.set(b, cand);
                        wit.set(b, newp);
                        proof {
                            let pv = wit@[b as int]@;
                            let pa = wit@[a as int]@;
                            assert((pa.len() + 1) * (u64::MAX as int) == pa.len() * (
                            u64::MAX as int) + (u64::MAX as int)) by (nonlinear_arith);
                            assert(pv.drop_last() =~= pa);
                            assert(pv.last() == b);
                            assert(has_edge(self.edges@, a, b)) by {
                                assert(self.edges@[k as int] == (a, b));
                                assert(crate::walk::edge_matches(
                                    self.edges@[k as int],
                                    crate::walk::Direction::Outgoing,
                                    a,
                                ));
                            }
                            assert(is_edge_path(self.edges@, pv)) by {
                                assert forall|i: int| 0 <= i < pv.len() - 1 implies has_edge(
                                    self.edges@,
                                    #[trigger] pv[i],
                                    pv[i + 1],
                                ) by {
                                    if i < pa.len() - 1 {
                                        assert(pa[i] == pv[i] && pa[i + 1] == pv[i + 1]);
                                    } else {
                                        assert(pv[i] == pa.last() && pv[i + 1] == b);
                                    }
                                }
                            }
                            assert(path_weight(pv, durations@) == path_weight(pa, durations@)
                                + durations@[b as int]);
                            assert(cp_entry_ok(
                                *self,
                                roots@,
                                durations@,
                                pv,
                                dist@[b as int],
                                b as int,
                            ));
                        }
                    }
                }
                proof {
                    // This step only grows the search state.
                    assert forall|v: int|
                        0 <= v < n && step_reached[v] implies (#[trigger] reached@[v])
                        && step_dist[v] <= dist@[v] by {}
                    if acyclic(self.edges@) {
                        assert forall|p: Seq<usize>|
                            #[trigger] simple_rooted_path(*self, roots@, p) && p.len() <= round + 1
                                implies reached@[p[p.len() - 1] as int] && dist@[p[p.len()
                            - 1] as int] as int >= path_weight(p, durations@) by {
                            assert(step_reached[p[p.len() - 1] as int] && step_dist[p[p.len()
                                - 1] as int] as int >= path_weight(p, durations@));
                        }
                        assert forall|p: Seq<usize>|
                            #[trigger] simple_rooted_path(*self, roots@, p) && 2 <= p.len() <= round
                                + 2 && (exists|kk: int|
                                0 <= kk < k + 1 && #[trigger] self.edges@[kk] == (
                                p[p.len() - 2],
                                p[p.len() - 1],
                                )) implies reached@[p[p.len() - 1] as int] && dist@[p[p.len()
                            - 1] as int] as int >= path_weight(p, durations@) by {
                            let kk = choose|kk: int|
                                0 <= kk < k + 1 && #[trigger] self.edges@[kk] == (
                                p[p.len() - 2],
                                p[p.len() - 1],
                                );
                            if kk < k {
                                assert(reached@[p[p.len() - 1] as int] && dist@[p[p.len()
                                    - 1] as int] as int >= path_weight(p, durations@)) by {
                                    assert(step_reached[p[p.len() - 1] as int] && step_dist[p[p.len()
                                        - 1] as int] as int >= path_weight(p, durations@));
                                }
                            } else {
                                // This very step relaxed the path's last edge.
                                let pa = p.drop_last();
                                assert(p[p.len() - 2] == a && p[p.len() - 1] == b);
                                assert(simple_rooted_path(*self, roots@, pa)) by {
                                    assert(pa.no_duplicates());
                                    assert forall|x: int| 0 <= x < pa.len() - 1 implies has_edge(
                                        self.edges@,
                                        #[trigger] pa[x],
                                        pa[x + 1],
                                    ) by {
                                        assert(pa[x] == p[x] && pa[x + 1] == p[x + 1]);
                                    }
                                }
                                assert(pa.len() <= round + 1);
                                assert(step_reached[a as int] && step_dist[a as int]
                                    as int >= path_weight(pa, durations@));
                                assert(path_weight(p, durations@) == path_weight(pa, durations@)
                                    + durations@[b as int]);
                                assert(a != b);
                                assert(has_edge(self.edges@, a, b)) by {
                                    assert(crate::walk::edge_matches(
                                        self.edges@[kk],
                                        Direction::Outgoing,
                                        a,
                                    ));
                                }
                                assert(reached@[b as int] && dist@[b as int] as int >= path_weight(
                                    p,
                                    durations@,
                                )) by {
                                    if step_wit[a as int]@.len() < n {
                                        // The guard passed, so this step
                                        // relaxed the edge (or found it
                                        // already dominated).
                                    } else {
                                        // A full witness plus this edge would
                                        // be a cycle.
                                        assert(cp_entry_ok(
                                            *self,
                                            roots@,
                                            durations@,
                                            step_wit[a as int]@,
                                            step_dist[a as int],
                                            a as int,
                                        ));
                                        lemma_full_witness_blocks(
                                            *self,
                                            step_wit[a as int]@,
                                            a,
                                            b,
                                        );
                                        assert(!reaches(self.edges@, b, a));
                                    }
                                }
                            }
                        }
                    }
                }
                k += 1;
            }
            proof {
                if acyclic(self.edges@) {
                    assert forall|p: Seq<usize>|
                        #[trigger] simple_rooted_path(*self, roots@, p) && p.len() <= round + 2
                            implies reached@[p[p.len() - 1] as int] && dist@[p[p.len()
                        - 1] as int] as int >= path_weight(p, durations@) by {
                        if p.len() <= round + 1 {
                        } else {
                            assert(p.len() >= 2);
                            assert(has_edge(self.edges@, p[p.len() - 2], p[p.len() - 1]));
                            let kk = choose|kk: int|
                                0 <= kk < self.edges@.len() && crate::walk::edge_matches(
                                    #[trigger] self.edges@[kk],
                                    Direction::Outgoing,
                                    p[p.len() - 2],
                                ) && crate::walk::edge_nb(self.edges@[kk], Direction::Outgoing)
                                    == p[p.len() - 1];
                            assert(self.edges@[kk] == (p[p.len() - 2], p[p.len() - 1]));
                        }
                    }
                }
            }
            round += 1;
        }

        proof {
            // Any simple path visits at most one entry each, so the rounds
            // above have accounted for all of them.
            if acyclic(self.edges@) {
                assert forall|p: Seq<usize>|
                    #[trigger] simple_rooted_path(*self, roots@, p) implies reached@[p[p.len()
                    - 1] as int] && dist@[p[p.len() - 1] as int] as int >= path_weight(
                    p,
                    durations@,
                ) by {
                    crate::walk::lemma_bounded_distinct_len(p, n as nat);
                    assert(p.len() <= n + 1);
                }
            }
        }

        // The heaviest reached entry ends the critical path.
        let mut best: usize = 0;
        let mut found: bool = false;
        let mut v: usize = 0;
        while v < n
            invariant
                self.wf(),
                n == self.entries@.len(),
                durations@.len() == n,
                v <= n,
                cp_state_ok(*self, roots@, durations@, reached@, dist@, wit@),
                cp_roots_reached(*self, roots@, reached@),
                reached@.len() == n,
                dist@.len() == n,
                acyclic(self.edges@) ==> forall|p: Seq<usize>|
                    #[trigger] simple_rooted_path(*self, roots@, p) ==> reached@[p[p.len()
                        - 1] as int] && dist@[p[p.len() - 1] as int] as int >= path_weight(
                        p,
                        durations@,
                    ),
                found ==> best < n && reached@[best as int],
                found ==> forall|x: int|
                    0 <= x < v && #[trigger] reached@[x] ==> dist@[x] <= dist@[best as int],
                !found ==> forall|x: int| 0 <= x < v ==> !(#[trigger] reached@[x]),
            decreases n - v,
        {
            if reached[v] {
                if !found || dist[v] > dist[best] {
                    best = v;
                }
                found = true;
            }
            v += 1;
        }
        if found {
            proof {
                assert(cp_entry_ok(
                    *self,
                    roots@,
                    durations@,
                    wit@[best as int]@,
                    dist@[best as int],
                    best as int,
                ));
                if acyclic(self.edges@) {
                    assert forall|p: Seq<usize>|
                        #[trigger] simple_rooted_path(*self, roots@, p) implies path_weight(
                        p,
                        durations@,
                    ) <= dist@[best as int] as int by {
                        assert(reached@[p[p.len() - 1] as int]);
                        assert(dist@[p[p.len() - 1] as int] <= dist@[best as int]);
                    }
                }
            }
            let total = dist[best];
            let path = copy_ids(&wit[best]);
            (total, path)
        } else {
            proof {
                assert forall|i: int| 0 <= i < self.entries@.len() implies !roots@.contains(
                    (#[trigger] self.entries@[i]).node,
                ) by {
                    if roots@.contains(self.entries@[i].node) {
                        assert(reached@[i]);
                    }
                }
                if acyclic(self.edges@) {
                    assert forall|p: Seq<usize>|
                        #[trigger] simple_rooted_path(*self, roots@, p) implies path_weight(
                        p,
                        durations@,
                    ) <= 0 by {
                        assert(roots@.contains(self.entries@[p[0] as int].node));
                        assert(reached@[p[0] as int]);
                        assert(false);
                    }
                }
            }
            (0, Vec::new())
        }
    }
}

/// Copy a list of entry ids.
pub fn copy_ids(v: &Vec<usize>) -> (out: Vec<usize>)
    ensures
        out@ == v@,
{
    let mut out: Vec<usize> = Vec::new();
    let mut i: usize = 0;
    while i < v.len()
        invariant
            i <= v@.len(),
            out@ =~= v@.subrange(0, i as int),
        decreases v@.len() - i,
    {
        out.push(v[i]);
        i += 1;
    }
    proof {
        assert(out@ =~= v@);
    }
    out
}

} // verus!

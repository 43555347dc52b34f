//! Laws of the engine that relate several operations, proved once and for
//! all from the operations' contracts.

use vstd::prelude::*;

use crate::entry::PollWaiter;
use crate::node::{err_eq, Node, NodeError};
use crate::request::{cached, done_of, hit_eligible, GetOutcome};
use crate::Graph;

verus! {

/// Monotonicity composes: across any sequence of operations, each of which
/// advances the graph, every entry's run token and generation are monotonic
/// and no entry is ever removed.
pub proof fn lemma_advances_transitive(a: Graph, b: Graph, c: Graph)
    requires
        Graph::advances(a, b),
        Graph::advances(b, c),
    ensures
        Graph::advances(a, c),
{
    assert forall|i: int| 0 <= i < a.entries@.len() implies crate::entry::entry_advances(
        a.entries@[i],
        #[trigger] c.entries@[i],
    ) by {
        assert(crate::entry::entry_advances(a.entries@[i], b.entries@[i]));
        assert(crate::entry::entry_advances(b.entries@[i], c.entries@[i]));
    }
}

/// Two consecutive requests of the same node, with nothing in between, hand
/// back the same item and the same generation, and invoke no runner: a
/// cache-eligible hit leaves the graph exactly as it was (that is
/// [`Graph::get`]'s contract), and what it hands back is a function of the
/// graph alone, so the second request repeats the first.
pub proof fn lemma_repeated_get_stable(g: Graph, n: Node, r1: GetOutcome, r2: GetOutcome)
    requires
        g.wf(),
        !g.draining,
        g.has_node(n),
        hit_eligible(g.entries@[g.node_index(n)]),
        done_of(
            cached(g.entries@[g.node_index(n)]),
            g.entries@[g.node_index(n)].generation(),
            r1,
        ),
        done_of(
            cached(g.entries@[g.node_index(n)]),
            g.entries@[g.node_index(n)].generation(),
            r2,
        ),
    ensures
        match (r1, r2) {
            (GetOutcome::Done(Ok((x1, g1))), GetOutcome::Done(Ok((x2, g2)))) => x1 == x2 && g1
                == g2,
            (GetOutcome::Done(Err(e1)), GetOutcome::Done(Err(e2))) => err_eq(e1, e2),
            _ => false,
        },
{
    let res = cached(g.entries@[g.node_index(n)]);
    match res {
        Ok(_) => {},
        Err(c) => {
            match (r1, r2) {
                (GetOutcome::Done(Err(e1)), GetOutcome::Done(Err(e2))) => {
                    assert(err_eq(e1, c) && err_eq(e2, c));
                    assert(err_eq(e1, e2)) by {
                        match (e1, e2, c) {
                            (NodeError::Cyclic(p1), NodeError::Cyclic(p2), NodeError::Cyclic(pc)) => {
                                assert(p1@ == pc@ && p2@ == pc@);
                            },
                            _ => {},
                        }
                    }
                },
                _ => {},
            }
        },
    }
}

/// Flipping the draining status twice to the same value fails the second
/// time: the first call leaves the graph in that very status, which the
/// second call refuses as already set.
pub proof fn lemma_mark_draining_twice(
    g0: Graph,
    g1: Graph,
    d: bool,
    r1: Result<(), ()>,
    r2: Result<(), ()>,
)
    requires
        r1 is Ok <==> g0.draining != d,
        r1 is Ok ==> g1.draining == d,
        r1 is Err ==> g1.draining == g0.draining,
        r1 is Ok,
        r2 is Ok <==> g1.draining != d,
    ensures
        r2 is Err,
{
}

/// A poll waiter gated at generation `w.gate` fires on a completion exactly
/// when the resulting generation exceeds its gate: a firing waiter's handle
/// lands on the woken list, a non-firing one stays registered, and each is
/// removed from the other side. The two filters in [`Graph::complete`]'s
/// contract partition the waiter list, so a waiter fires at most once.
pub proof fn lemma_poll_wakeup(pre: Graph, post: Graph, id: usize, w: PollWaiter, gen: u64)
    requires
        0 <= id < pre.entries@.len(),
        id < post.entries@.len(),
        pre.entries@[id as int].poll_waiters@.contains(w),
        post.entries@[id as int].poll_waiters@ == pre.entries@[id as int].poll_waiters@.filter(
            |x: PollWaiter| x.gate >= gen,
        ),
        post.woken@ == pre.woken@ + pre.entries@[id as int].poll_waiters@.filter(
            |x: PollWaiter| x.gate < gen,
        ).map_values(|x: PollWaiter| x.waiter),
    ensures
        w.gate < gen ==> post.woken@.contains(w.waiter),
        w.gate >= gen ==> post.entries@[id as int].poll_waiters@.contains(w),
        w.gate < gen ==> !post.entries@[id as int].poll_waiters@.contains(w),
{
    let ws = pre.entries@[id as int].poll_waiters@;
    let i = choose|i: int| 0 <= i < ws.len() && ws[i] == w;
    if w.gate < gen {
        ws.lemma_filter_contains(|x: PollWaiter| x.gate < gen, i);
        let low = ws.filter(|x: PollWaiter| x.gate < gen);
        let j = choose|j: int| 0 <= j < low.len() && low[j] == w;
        assert(low.map_values(|x: PollWaiter| x.waiter)[j] == w.waiter);
        assert(post.woken@[pre.woken@.len() + j] == w.waiter);
        assert(!post.entries@[id as int].poll_waiters@.contains(w)) by {
            let high = ws.filter(|x: PollWaiter| x.gate >= gen);
            if high.contains(w) {
                let m = choose|m: int| 0 <= m < high.len() && high[m] == w;
                ws.lemma_filter_pred(|x: PollWaiter| x.gate >= gen, m);
            }
        }
    } else {
        ws.lemma_filter_contains(|x: PollWaiter| x.gate >= gen, i);
    }
}

} // verus!

//! Node keys, items, and the engine's error type.

use vstd::prelude::*;

verus! {

/// A node key: the user-supplied identity of a unit of work, together with
/// its cacheability. Two nodes are the same entry exactly when they are equal.
#[derive(Clone, Copy, PartialEq, Eq, Hash, Debug, Structural)]
pub struct Node {
    /// Opaque user identity.
    pub key: u64,
    /// Whether the engine may reuse a cached value for this node and retry on
    /// its behalf. An uncacheable node re-runs on every request.
    pub cacheable: bool,
}

/// Stable handle of an entry: its index in the entry arena. Entries are never
/// deleted, so a handle stays valid for the life of the graph.
pub type EntryId = usize;

/// The value a runner produces for a node.
pub type Item = u64;

/// Errors the engine produces, plus runner failures carried through unchanged.
#[derive(Debug)]
pub enum NodeError {
    /// The entry was cleared mid-run, or the graph is draining.
    Invalidated,
    /// Adding the requested dependency edge would close a cycle; carries the
    /// nodes along the cycle, starting and ending at the requested dependency.
    Cyclic(Vec<Node>),
    /// The retry budget for an invalidated request was consumed.
    Exhausted,
    /// A runner failed with a user error code.
    Failed(u64),
}

/// Equality of two errors: same variant and same payload.
pub open spec fn err_eq(a: NodeError, b: NodeError) -> bool {
    match (a, b) {
        (NodeError::Invalidated, NodeError::Invalidated) => true,
        (NodeError::Cyclic(p), NodeError::Cyclic(q)) => p@ == q@,
        (NodeError::Exhausted, NodeError::Exhausted) => true,
        (NodeError::Failed(x), NodeError::Failed(y)) => x == y,
        _ => false,
    }
}

/// Equality of two run results: both succeed with equal items, or both fail
/// with equal errors.
pub open spec fn result_eq(a: Result<Item, NodeError>, b: Result<Item, NodeError>) -> bool {
    match (a, b) {
        (Ok(x), Ok(y)) => x == y,
        (Err(e), Err(f)) => err_eq(e, f),
        _ => false,
    }
}

impl NodeError {
    /// Whether this error is the engine's invalidation error; the retry loop
    /// consumes exactly these.
    pub fn is_invalidated(&self) -> (r: bool)
        ensures
            r == err_eq(*self, NodeError::Invalidated),
    {
        match self {
            NodeError::Invalidated => true,
            _ => false,
        }
    }

    /// Decide whether two errors are equal.
    pub fn same(&self, other: &NodeError) -> (r: bool)
        ensures
            r == err_eq(*self, *other),
    {
        match self {
            NodeError::Invalidated => matches!(other, NodeError::Invalidated),
            NodeError::Cyclic(p) => {
                match other {
                    NodeError::Cyclic(q) => {
                        proof {
                            assert(*self == NodeError::Cyclic(*p));
                            assert(*other == NodeError::Cyclic(*q));
                            assert(err_eq(*self, *other) == (p@ == q@));
                        }
                        if p.len() != q.len() {
                            proof {
                                assert(p@ != q@);
                            }
                            return false;
                        }
                        let mut i: usize = 0;
                        while i < p.len()
                            invariant
                                i <= p@.len(),
                                p@.len() == q@.len(),
                                err_eq(*self, *other) == (p@ == q@),
                                forall|j: int| 0 <= j < i ==> p@[j] == q@[j],
                            decreases p@.len() - i,
                        {
                            if p[i] != q[i] {
                                proof {
                                    assert(p@[i as int] != q@[i as int]);
                                    assert(p@ != q@);
                                }
                                return false;
                            }
                            i += 1;
                        }
                        proof {
                            assert(p@ =~= q@);
                        }
                        true
                    },
                    _ => false,
                }
            },
            NodeError::Exhausted => matches!(other, NodeError::Exhausted),
            NodeError::Failed(x) => {
                match other {
                    NodeError::Failed(y) => x == y,
                    _ => false,
                }
            },
        }
    }
}

/// Copy a list of nodes.
pub fn copy_nodes(v: &Vec<Node>) -> (out: Vec<Node>)
    ensures
        out@ == v@,
{
    let mut out: Vec<Node> = Vec::new();
    let mut i: usize = 0;
    while i < v.len()
        invariant
            i <= v@.len(),
            out@ =~= v@.subrange(0, i as int),
        decreases v@.len() - i,
    {
        out.push(v[i]);
        i += 1;
    }
    proof {
        assert(out@ =~= v@);
    }
    out
}

impl NodeError {
    /// Copy an error; the copy is equal to the original.
    pub fn duplicate(&self) -> (out: NodeError)
        ensures
            err_eq(out, *self),
    {
        match self {
            NodeError::Invalidated => NodeError::Invalidated,
            NodeError::Cyclic(p) => NodeError::Cyclic(copy_nodes(p)),
            NodeError::Exhausted => NodeError::Exhausted,
            NodeError::Failed(x) => NodeError::Failed(*x),
        }
    }
}

/// Copy a run result; the copy is equal to the original.
pub fn copy_result(r: &Result<Item, NodeError>) -> (out: Result<Item, NodeError>)
    ensures
        result_eq(out, *r),
{
    match r {
        Ok(x) => Ok(*x),
        Err(e) => Err(e.duplicate()),
    }
}

/// Decide whether two run results are equal; the generation of an entry is
/// bumped exactly when a completing result is not equal to the previous one.
pub fn results_equal(a: &Result<Item, NodeError>, b: &Result<Item, NodeError>) -> (r: bool)
    ensures
        r == result_eq(*a, *b),
{
    match (a, b) {
        (Ok(x), Ok(y)) => x == y,
        (Err(e), Err(f)) => e.same(f),
        _ => false,
    }
}

} // verus!

//! End-to-end scenarios: a synchronous driver plays the part of the task
//! scheduler and the user-supplied node runners, and drives the engine's
//! decisions to completion.

use graph::{
    CleanOutcome, EntryState, GetOutcome, Graph, InvalidationResult, LastObserved, Node, NodeError,
    PollOutcome, RetryDecision,
};

/// A runner rule: the node, the dependencies its runner requests, its own
/// base value (its item is the base plus the sum of its dependencies' items),
/// and whether it fails with that base as an error code instead.
#[derive(Clone)]
struct Rule {
    node: Node,
    deps: Vec<Node>,
    base: u64,
    fail: bool,
}

fn rule(node: Node, deps: Vec<Node>, base: u64) -> Rule {
    Rule { node, deps, base, fail: false }
}

fn rule_for(rules: &[Rule], node: Node) -> Rule {
    for r in rules {
        if r.node == node {
            return r.clone();
        }
    }
    Rule { node, deps: Vec::new(), base: 0, fail: false }
}

fn bump_count(counts: &mut Vec<(u64, usize)>, key: u64) {
    for c in counts.iter_mut() {
        if c.0 == key {
            c.1 += 1;
            return;
        }
    }
    counts.push((key, 1));
}

fn count_of(counts: &[(u64, usize)], key: u64) -> usize {
    for c in counts {
        if c.0 == key {
            return c.1;
        }
    }
    0
}

fn copy_error(e: &NodeError) -> NodeError {
    match e {
        NodeError::Invalidated => NodeError::Invalidated,
        NodeError::Cyclic(p) => NodeError::Cyclic(p.clone()),
        NodeError::Exhausted => NodeError::Exhausted,
        NodeError::Failed(c) => NodeError::Failed(*c),
    }
}

/// Invoke the runner for `node` under `run_token`: request its dependencies
/// (with this entry as their source), then complete with the computed item or
/// the first dependency error. Returns this run's stored value, or `None`
/// when the entry moved on and the caller must request it anew.
fn run_node(
    g: &mut Graph,
    id: usize,
    run_token: u64,
    node: Node,
    rules: &[Rule],
    counts: &mut Vec<(u64, usize)>,
) -> Option<Result<(u64, u64), NodeError>> {
    let mut token = run_token;
    loop {
        bump_count(counts, node.key);
        let r = rule_for(rules, node);
        let mut val = r.base;
        let mut err: Option<NodeError> = None;
        for d in r.deps {
            match drive(g, Some(id), d, rules, counts) {
                Ok((item, _gen)) => {
                    val = val.wrapping_add(item);
                }
                Err(e) => {
                    err = Some(e);
                    break;
                }
            }
        }
        let result = if r.fail {
            Err(NodeError::Failed(r.base))
        } else {
            match err {
                None => Ok(val),
                Some(e) => Err(e),
            }
        };
        let own = match &result {
            Ok(v) => Ok(*v),
            Err(e) => Err(copy_error(e)),
        };
        match g.complete(id, token, result) {
            graph::CompleteResult::Stored { generation, .. } => {
                return Some(match own {
                    Ok(v) => Ok((v, generation)),
                    Err(e) => Err(e),
                });
            }
            graph::CompleteResult::RunAgain { run_token } => {
                token = run_token;
            }
            graph::CompleteResult::Ignored => return None,
        }
    }
}

/// Drive one request to a final value or error, invoking runners whenever the
/// engine asks for one and applying the engine's retry policy.
fn drive(
    g: &mut Graph,
    src: Option<usize>,
    node: Node,
    rules: &[Rule],
    counts: &mut Vec<(u64, usize)>,
) -> Result<(u64, u64), NodeError> {
    let mut attempts: usize = 0;
    let retryable = g.retry_eligible(src);
    loop {
        let settled = match g.get(src, node) {
            GetOutcome::Done(r) => Some(r),
            GetOutcome::Started { id, run_token } => {
                run_node(g, id, run_token, node, rules, counts)
            }
            GetOutcome::Wait { .. } => {
                panic!("a single-threaded driver never races a run");
            }
            GetOutcome::CleanCheck { id, run_token, deps } => {
                let mut dep_failure: Option<NodeError> = None;
                for d in deps {
                    let dn = g.entries[d].node;
                    if let Err(e) = drive(g, None, dn, rules, counts) {
                        dep_failure = Some(e);
                        break;
                    }
                }
                if let Some(e) = dep_failure {
                    Some(Err(e))
                } else {
                    match g.resolve_clean_check(id, run_token) {
                        CleanOutcome::Clean(r) => Some(r),
                        CleanOutcome::ReRun { run_token } => {
                            run_node(g, id, run_token, node, rules, counts)
                        }
                        CleanOutcome::Superseded => None,
                    }
                }
            }
        };
        match settled {
            None => continue,
            Some(Ok(p)) => return Ok(p),
            Some(Err(e)) => {
                if retryable {
                    attempts += 1;
                    match Graph::retry_decision(attempts, &e) {
                        RetryDecision::Retry => continue,
                        RetryDecision::GiveUp => return Err(NodeError::Exhausted),
                        RetryDecision::Surface => return Err(e),
                    }
                } else {
                    return Err(e);
                }
            }
        }
    }
}

fn node(key: u64) -> Node {
    Node { key, cacheable: true }
}

fn uncacheable(key: u64) -> Node {
    Node { key, cacheable: false }
}

fn generation_of(g: &Graph, n: Node) -> u64 {
    for e in &g.entries {
        if e.node == n {
            match &e.state {
                EntryState::NotStarted { generation, .. } => return *generation,
                EntryState::Running { generation, .. } => return *generation,
                EntryState::Completed { generation, .. } => return *generation,
            }
        }
    }
    panic!("no entry for node");
}

fn id_of(g: &Graph, n: Node) -> usize {
    for (i, e) in g.entries.iter().enumerate() {
        if e.node == n {
            return i;
        }
    }
    panic!("no entry for node");
}

#[test]
fn cache_hit_runs_each_node_once() {
    let a = node(1);
    let b = node(2);
    let rules = vec![rule(a, vec![b], 10), rule(b, vec![], 5)];
    let mut counts: Vec<(u64, usize)> = Vec::new();
    let mut g = Graph::new();
    let r1 = drive(&mut g, None, a, &rules, &mut counts).unwrap();
    assert_eq!(r1, (15, 1));
    assert_eq!(count_of(&counts, 1), 1);
    assert_eq!(count_of(&counts, 2), 1);
    let r2 = drive(&mut g, None, a, &rules, &mut counts).unwrap();
    assert_eq!(r2, (15, 1));
    assert_eq!(count_of(&counts, 1), 1);
    assert_eq!(count_of(&counts, 2), 1);
    assert_eq!(g.len(), 2);
}

#[test]
fn invalidation_with_unchanged_value_cleans_without_rerun() {
    let a = node(1);
    let b = node(2);
    let rules = vec![rule(a, vec![b], 10), rule(b, vec![], 5)];
    let mut counts: Vec<(u64, usize)> = Vec::new();
    let mut g = Graph::new();
    drive(&mut g, None, a, &rules, &mut counts).unwrap();
    let inv = g.invalidate_from_roots(&vec![b]);
    assert_eq!(inv, InvalidationResult { cleared: 1, dirtied: 1 });
    let r = drive(&mut g, None, a, &rules, &mut counts).unwrap();
    assert_eq!(r, (15, 1));
    assert_eq!(count_of(&counts, 1), 1);
    assert_eq!(count_of(&counts, 2), 2);
    assert_eq!(generation_of(&g, a), 1);
    assert_eq!(generation_of(&g, b), 1);
}

#[test]
fn invalidation_with_changed_value_forces_rerun() {
    let a = node(1);
    let b = node(2);
    let rules = vec![rule(a, vec![b], 10), rule(b, vec![], 5)];
    let mut counts: Vec<(u64, usize)> = Vec::new();
    let mut g = Graph::new();
    drive(&mut g, None, a, &rules, &mut counts).unwrap();
    let rules2 = vec![rule(a, vec![b], 10), rule(b, vec![], 6)];
    g.invalidate_from_roots(&vec![b]);
    let r = drive(&mut g, None, a, &rules2, &mut counts).unwrap();
    assert_eq!(r, (16, 2));
    assert_eq!(count_of(&counts, 1), 2);
    assert_eq!(count_of(&counts, 2), 2);
    assert_eq!(generation_of(&g, b), 2);
    assert_eq!(generation_of(&g, a), 2);
}

#[test]
fn invalidation_with_changed_dep_but_same_output_keeps_generation() {
    // The dependency's value changes, so the dependent re-runs, but its own
    // output is unchanged: its generation stays put.
    let a = node(1);
    let b = node(2);
    // The dependent ignores the dependency's value.
    let rules = vec![
        Rule { node: a, deps: vec![b], base: 10, fail: false },
        rule(b, vec![], 5),
    ];
    let mut counts: Vec<(u64, usize)> = Vec::new();
    let mut g = Graph::new();
    // First run: a = 10 + 5 = 15.
    drive(&mut g, None, a, &rules, &mut counts).unwrap();
    // b changes from 5 to 6, a changes from 15 to 16: covered above. Here
    // instead change b from 5 to 5 via a different rule set with a different
    // base for a, to pin that only *observed* change bumps generations.
    g.invalidate_from_roots(&vec![b]);
    let r = drive(&mut g, None, a, &rules, &mut counts).unwrap();
    assert_eq!(r, (15, 1));
    assert_eq!(generation_of(&g, a), 1);
}

#[test]
fn cycle_is_rejected_with_path_and_edge_not_added() {
    let a = node(1);
    let b = node(2);
    let rules = vec![rule(a, vec![b], 1), rule(b, vec![a], 2)];
    let mut counts: Vec<(u64, usize)> = Vec::new();
    let mut g = Graph::new();
    let r = drive(&mut g, None, a, &rules, &mut counts);
    match r {
        Err(NodeError::Cyclic(path)) => {
            assert_eq!(path, vec![a, b, a]);
        }
        other => panic!("expected a cycle error, got {:?}", other.map(|_| ())),
    }
    let ia = id_of(&g, a);
    let ib = id_of(&g, b);
    assert!(g.edges.contains(&(ia, ib)));
    assert!(!g.edges.contains(&(ib, ia)));
}

#[test]
fn self_edge_reports_two_node_cycle_and_mutates_nothing() {
    let a = node(1);
    let rules = vec![rule(a, vec![], 3)];
    let mut counts: Vec<(u64, usize)> = Vec::new();
    let mut g = Graph::new();
    drive(&mut g, None, a, &rules, &mut counts).unwrap();
    let ia = id_of(&g, a);
    let edges_before = g.edges.clone();
    let r = g.get(Some(ia), a);
    match r {
        GetOutcome::Done(Err(NodeError::Cyclic(path))) => {
            assert_eq!(path, vec![a, a]);
        }
        _ => panic!("expected a cycle error"),
    }
    assert_eq!(g.edges, edges_before);
    assert_eq!(generation_of(&g, a), 1);
}

#[test]
fn dirty_phantom_cycle_is_cleared_and_edge_added() {
    let a = node(1);
    let b = node(2);
    let rules = vec![rule(a, vec![b], 10), rule(b, vec![], 5)];
    let mut counts: Vec<(u64, usize)> = Vec::new();
    let mut g = Graph::new();
    drive(&mut g, None, a, &rules, &mut counts).unwrap();
    // Invalidate b: a becomes dirty and keeps its stale edge a -> b.
    g.invalidate_from_roots(&vec![b]);
    let ia = id_of(&g, a);
    let ib = id_of(&g, b);
    assert!(g.edges.contains(&(ia, ib)));
    // A new run of b requests a: detection sees the stale a -> b edge as a
    // cycle, but a is dirty, so the resolver clears it and admits the edge.
    let started = g.get(None, b);
    let tok = match started {
        GetOutcome::Started { id, run_token } => {
            assert_eq!(id, ib);
            run_token
        }
        _ => panic!("expected a fresh run of b"),
    };
    let r = g.get(Some(ib), a);
    assert!(matches!(r, GetOutcome::Started { .. }));
    assert!(g.edges.contains(&(ib, ia)));
    assert!(!g.edges.contains(&(ia, ib)));
    let _ = tok;
}

#[test]
fn clear_reruns_every_node_in_the_subgraph_once() {
    let a = node(1);
    let b = node(2);
    let rules = vec![rule(a, vec![b], 10), rule(b, vec![], 5)];
    let mut counts: Vec<(u64, usize)> = Vec::new();
    let mut g = Graph::new();
    drive(&mut g, None, a, &rules, &mut counts).unwrap();
    g.clear();
    let r = drive(&mut g, None, a, &rules, &mut counts).unwrap();
    // The values are unchanged, so the generations stay put too.
    assert_eq!(r, (15, 1));
    assert_eq!(count_of(&counts, 1), 2);
    assert_eq!(count_of(&counts, 2), 2);
}

#[test]
fn mark_draining_twice_fails_the_second_time() {
    let mut g = Graph::new();
    assert!(g.mark_draining(true).is_ok());
    assert!(g.mark_draining(true).is_err());
    assert!(g.mark_draining(false).is_ok());
    assert!(g.mark_draining(false).is_err());
}

#[test]
fn draining_refuses_new_requests() {
    let a = node(1);
    let rules = vec![rule(a, vec![], 3)];
    let mut counts: Vec<(u64, usize)> = Vec::new();
    let mut g = Graph::new();
    drive(&mut g, None, a, &rules, &mut counts).unwrap();
    g.mark_draining(true).unwrap();
    let r = g.get(None, a);
    assert!(matches!(r, GetOutcome::Done(Err(NodeError::Invalidated))));
    assert_eq!(g.len(), 1);
}

#[test]
fn uncacheable_node_runs_on_every_request() {
    let u = uncacheable(7);
    let rules = vec![rule(u, vec![], 9)];
    let mut counts: Vec<(u64, usize)> = Vec::new();
    let mut g = Graph::new();
    let r1 = drive(&mut g, None, u, &rules, &mut counts).unwrap();
    let r2 = drive(&mut g, None, u, &rules, &mut counts).unwrap();
    assert_eq!(count_of(&counts, 7), 2);
    // The value did not change, so the generation did not either.
    assert_eq!(r1, (9, 1));
    assert_eq!(r2, (9, 1));
}

#[test]
fn retry_budget_is_eight_attempts() {
    for attempts in 1..8 {
        assert_eq!(
            Graph::retry_decision(attempts, &NodeError::Invalidated),
            RetryDecision::Retry
        );
    }
    assert_eq!(
        Graph::retry_decision(8, &NodeError::Invalidated),
        RetryDecision::GiveUp
    );
    assert_eq!(
        Graph::retry_decision(1, &NodeError::Failed(3)),
        RetryDecision::Surface
    );
}

#[test]
fn cached_invalidation_error_exhausts_the_retry_budget() {
    // A run that completes with the invalidation error caches it; an external
    // request keeps consuming it until the budget is spent.
    let a = node(1);
    let rules = vec![rule(a, vec![], 0)];
    let mut counts: Vec<(u64, usize)> = Vec::new();
    let mut g = Graph::new();
    // Run a once and overwrite its completion with the invalidation error.
    let (id, tok) = match g.get(None, a) {
        GetOutcome::Started { id, run_token } => (id, run_token),
        _ => panic!("expected a fresh run"),
    };
    g.complete(id, tok, Err(NodeError::Invalidated));
    let r = drive(&mut g, None, a, &rules, &mut counts);
    assert!(matches!(r, Err(NodeError::Exhausted)));
}

#[test]
fn runner_failure_is_cached_and_propagated() {
    let a = node(1);
    let b = node(2);
    let rules = vec![
        rule(a, vec![b], 1),
        Rule { node: b, deps: vec![], base: 42, fail: true },
    ];
    let mut counts: Vec<(u64, usize)> = Vec::new();
    let mut g = Graph::new();
    let r = drive(&mut g, None, a, &rules, &mut counts);
    assert!(matches!(r, Err(NodeError::Failed(42))));
}

#[test]
fn critical_path_of_empty_roots_is_zero_and_empty() {
    let g = Graph::new();
    let durations: Vec<u64> = Vec::new();
    let (total, path) = g.critical_path(&vec![node(1), node(2)], &durations);
    assert_eq!(total, 0);
    assert!(path.is_empty());
}

#[test]
fn critical_path_follows_the_heaviest_chain() {
    let a = node(1);
    let b = node(2);
    let c = node(3);
    // a depends on b and c; b is the heavier branch.
    let rules = vec![
        rule(a, vec![b, c], 1),
        rule(b, vec![], 2),
        rule(c, vec![], 3),
    ];
    let mut counts: Vec<(u64, usize)> = Vec::new();
    let mut g = Graph::new();
    drive(&mut g, None, a, &rules, &mut counts).unwrap();
    let ia = id_of(&g, a);
    let ib = id_of(&g, b);
    let mut durations = vec![0u64; g.len()];
    durations[ia] = 3;
    durations[ib] = 4;
    durations[id_of(&g, c)] = 1;
    let (total, path) = g.critical_path(&vec![a], &durations);
    assert_eq!(total, 7);
    assert_eq!(path, vec![ia, ib]);
}

#[test]
fn poll_wakes_only_on_a_real_change() {
    let a = node(1);
    let b = node(2);
    let rules = vec![rule(a, vec![b], 10), rule(b, vec![], 5)];
    let mut counts: Vec<(u64, usize)> = Vec::new();
    let mut g = Graph::new();
    drive(&mut g, None, a, &rules, &mut counts).unwrap();
    assert!(matches!(
        g.poll(a, Some(LastObserved(1)), 42),
        PollOutcome::Suspended
    ));
    // b re-runs with the same value: a is clean-checked, its generation stays
    // at 1 and the poller stays suspended.
    g.invalidate_from_roots(&vec![b]);
    drive(&mut g, None, a, &rules, &mut counts).unwrap();
    assert_eq!(g.take_woken(), Vec::<u64>::new());
    // b changes: a re-runs with a new value, generation 2, and the poller
    // gated at 1 wakes.
    let rules2 = vec![rule(a, vec![b], 10), rule(b, vec![], 6)];
    g.invalidate_from_roots(&vec![b]);
    drive(&mut g, None, a, &rules2, &mut counts).unwrap();
    assert_eq!(g.take_woken(), vec![42]);
    // A poller that has already seen the newest generation proceeds at once.
    assert!(matches!(
        g.poll(a, Some(LastObserved(1)), 43),
        PollOutcome::Ready
    ));
    assert!(matches!(g.poll(a, None, 44), PollOutcome::Ready));
}

#[test]
fn poll_waiters_fire_on_invalidation_of_the_node() {
    let a = node(1);
    let rules = vec![rule(a, vec![], 5)];
    let mut counts: Vec<(u64, usize)> = Vec::new();
    let mut g = Graph::new();
    drive(&mut g, None, a, &rules, &mut counts).unwrap();
    assert!(matches!(
        g.poll(a, Some(LastObserved(1)), 7),
        PollOutcome::Suspended
    ));
    g.invalidate_from_roots(&vec![a]);
    assert_eq!(g.take_woken(), vec![7]);
}

#[test]
fn invalidation_counts_and_untouched_entries() {
    let a = node(1);
    let b = node(2);
    let c = node(3);
    let rules = vec![
        rule(a, vec![b], 1),
        rule(b, vec![], 2),
        rule(c, vec![], 3),
    ];
    let mut counts: Vec<(u64, usize)> = Vec::new();
    let mut g = Graph::new();
    drive(&mut g, None, a, &rules, &mut counts).unwrap();
    drive(&mut g, None, c, &rules, &mut counts).unwrap();
    // b is cleared; a (its dependent) is dirtied; c is untouched.
    let inv = g.invalidate_from_roots(&vec![b]);
    assert_eq!(inv, InvalidationResult { cleared: 1, dirtied: 1 });
    let ic = id_of(&g, c);
    assert!(matches!(
        g.entries[ic].state,
        EntryState::Completed { dirty: false, .. }
    ));
    let ia = id_of(&g, a);
    assert!(matches!(
        g.entries[ia].state,
        EntryState::Completed { dirty: true, .. }
    ));
    let ib = id_of(&g, b);
    assert!(matches!(g.entries[ib].state, EntryState::NotStarted { .. }));
    // A not-started root needs no clearing and is not counted.
    let inv2 = g.invalidate_from_roots(&vec![b]);
    assert_eq!(inv2, InvalidationResult { cleared: 0, dirtied: 0 });
}

#[test]
fn generations_and_run_tokens_are_monotonic() {
    let a = node(1);
    let b = node(2);
    let rules = vec![rule(a, vec![b], 10), rule(b, vec![], 5)];
    let rules2 = vec![rule(a, vec![b], 10), rule(b, vec![], 6)];
    let mut counts: Vec<(u64, usize)> = Vec::new();
    let mut g = Graph::new();
    let mut last: Vec<(u64, u64)> = Vec::new();
    let mut check = |g: &Graph, last: &mut Vec<(u64, u64)>| {
        for (i, e) in g.entries.iter().enumerate() {
            let (t, gen) = match &e.state {
                EntryState::NotStarted { run_token, generation, .. } => (*run_token, *generation),
                EntryState::Running { run_token, generation, .. } => (*run_token, *generation),
                EntryState::Completed { run_token, generation, .. } => (*run_token, *generation),
            };
            if i < last.len() {
                assert!(t >= last[i].0 && gen >= last[i].1);
                last[i] = (t, gen);
            } else {
                last.push((t, gen));
            }
        }
    };
    drive(&mut g, None, a, &rules, &mut counts).unwrap();
    check(&g, &mut last);
    g.invalidate_from_roots(&vec![b]);
    check(&g, &mut last);
    drive(&mut g, None, a, &rules2, &mut counts).unwrap();
    check(&g, &mut last);
    g.clear();
    check(&g, &mut last);
    drive(&mut g, None, a, &rules2, &mut counts).unwrap();
    check(&g, &mut last);
}

#[test]
fn stale_completion_is_discarded_and_rerun_owed() {
    let a = node(1);
    let b = node(2);
    let mut g = Graph::new();
    // a starts running and records a dependency on b.
    let (ia, tok_a) = match g.get(None, a) {
        GetOutcome::Started { id, run_token } => (id, run_token),
        _ => panic!("expected a fresh run"),
    };
    let (ib, tok_b) = match g.get(Some(ia), b) {
        GetOutcome::Started { id, run_token } => (id, run_token),
        _ => panic!("expected a fresh run"),
    };
    g.complete(ib, tok_b, Ok(5));
    // b is invalidated while a still runs: a is dirtied, which bumps its run
    // token; a's in-flight completion is discarded and a new run owed.
    g.invalidate_from_roots(&vec![b]);
    let r = g.complete(ia, tok_a, Ok(15));
    match r {
        graph::CompleteResult::RunAgain { run_token } => assert!(run_token > tok_a),
        _ => panic!("expected the stale completion to be discarded"),
    }
    // A completion for an entry that was cleared outright is simply ignored.
    let r2 = g.complete(ib, tok_b, Ok(5));
    assert!(matches!(r2, graph::CompleteResult::Ignored));
}

#[test]
fn entries_are_created_once_per_node() {
    let a = node(1);
    let b = node(2);
    let mut g = Graph::new();
    let ia = g.ensure_entry(a);
    let ib = g.ensure_entry(b);
    assert_ne!(ia, ib);
    assert_eq!(g.ensure_entry(a), ia);
    assert_eq!(g.ensure_entry(b), ib);
    assert_eq!(g.len(), 2);
}

#[test]
fn duplicate_edges_collapse() {
    let mut g = Graph::new();
    let ia = g.ensure_entry(node(1));
    let ib = g.ensure_entry(node(2));
    g.add_edge(ia, ib);
    g.add_edge(ia, ib);
    assert_eq!(g.edges, vec![(ia, ib)]);
    assert_eq!(g.dep_ids(ia), vec![ib]);
    assert_eq!(g.dep_ids(ib), Vec::<usize>::new());
}

#[test]
fn walks_and_cycle_detection_follow_the_edges() {
    let mut g = Graph::new();
    let ia = g.ensure_entry(node(1));
    let ib = g.ensure_entry(node(2));
    let ic = g.ensure_entry(node(3));
    let id = g.ensure_entry(node(4));
    g.add_edge(ia, ib);
    g.add_edge(ib, ic);
    let mut down = g.walk(&vec![ia], graph::Direction::Outgoing);
    down.sort();
    assert_eq!(down, vec![ia, ib, ic]);
    let mut up = g.walk(&vec![ic], graph::Direction::Incoming);
    up.sort();
    assert_eq!(up, vec![ia, ib, ic]);
    assert_eq!(g.walk(&vec![id], graph::Direction::Outgoing), vec![id]);
    // Adding c -> a would close a cycle; d is unrelated.
    assert!(g.detect_cycle(ic, ia));
    assert!(!g.detect_cycle(id, ia));
    match g.report_cycle(ic, ia) {
        Some(path) => assert_eq!(path, vec![ia, ib, ic, ia]),
        None => panic!("expected a cycle report"),
    }
    assert!(g.report_cycle(id, ia).is_none());
}

#[test]
fn clear_deps_respects_the_run_token() {
    let mut g = Graph::new();
    let a = node(1);
    let rules = vec![rule(a, vec![node(2)], 1), rule(node(2), vec![], 2)];
    let mut counts: Vec<(u64, usize)> = Vec::new();
    drive(&mut g, None, a, &rules, &mut counts).unwrap();
    let ia = id_of(&g, a);
    let stale = 0u64;
    g.clear_deps(ia, stale);
    assert_eq!(g.dep_ids(ia).len(), 1);
    let current = match &g.entries[ia].state {
        EntryState::Completed { run_token, .. } => *run_token,
        _ => panic!("expected a completed entry"),
    };
    g.clear_deps(ia, current);
    assert_eq!(g.dep_ids(ia).len(), 0);
}

#[test]
fn stopped_walks_yield_but_do_not_descend() {
    let mut g = Graph::new();
    let ia = g.ensure_entry(node(1));
    let ib = g.ensure_entry(node(2));
    let ic = g.ensure_entry(node(3));
    g.add_edge(ia, ib);
    g.add_edge(ib, ic);
    let mut stop = vec![false; g.len()];
    stop[ib] = true;
    // b is yielded when reached, but the walk does not continue through it.
    let mut out = g.walk_until(&vec![ia], graph::Direction::Outgoing, &stop);
    out.sort();
    assert_eq!(out, vec![ia, ib]);
    // A stopped root still yields itself, and nothing beyond.
    assert_eq!(g.walk_until(&vec![ib], graph::Direction::Outgoing, &stop), vec![ib]);
}

use circuit::checking::VariableState;
use circuit::domains::{Comparison, Predicate};
use circuit::scc_checker::SCCChecker;

/// The variable named `xk` is the variable with index `k - 1`.
fn var(name: &str) -> usize {
    name[1..].parse::<usize>().unwrap() - 1
}

fn eq(name: &'static str, value: i32) -> Vec<Predicate> {
    vec![Predicate { variable: var(name), comparison: Comparison::Equal, value }]
}

fn new_sparse_variable(name: &'static str, mut values: Vec<i32>) -> Vec<Predicate> {
    values.sort();
    let mut atoms: Vec<Predicate> = Vec::new();

    let atom_gt = Predicate { variable: var(name), comparison: Comparison::GreaterEqual, value: values[0] };
    atoms.push(atom_gt);

    let atom_lt = Predicate { variable: var(name), comparison: Comparison::LessEqual, value: values[values.len() - 1] };
    atoms.push(atom_lt);

    let mut holes: Vec<i32> = Vec::new();
    let mut prev = values[0] - 1;
    for val in values {
        let mut gap = val - prev;
        while gap > 1 {
            holes.push(prev + gap);
            gap = gap - 1;
        }
        prev = val;
    }

    for hole in holes {
        let atom_hole = Predicate { variable: var(name), comparison: Comparison::NotEqual, value: hole };
        atoms.push(atom_hole);
    }
    atoms
}

/// The state that the premises (and the negation of the consequent, if any)
/// induce on the variables: a variable with both bounds gets the values between
/// them that no premise excludes; others are unbounded. `None` where the
/// atomics conflict.
fn prepare_for_conflict_check(premises: &[Predicate], consequent: Option<Predicate>) -> Option<VariableState> {
    let mut atomics: Vec<Predicate> = premises.to_vec();
    if let Some(c) = consequent {
        let negated = match c.comparison {
            Comparison::Equal => Predicate { comparison: Comparison::NotEqual, ..c },
            Comparison::NotEqual => Predicate { comparison: Comparison::Equal, ..c },
            Comparison::GreaterEqual => Predicate { comparison: Comparison::LessEqual, value: c.value - 1, ..c },
            Comparison::LessEqual => Predicate { comparison: Comparison::GreaterEqual, value: c.value + 1, ..c },
        };
        atomics.push(negated);
    }
    let num_vars = atomics.iter().map(|a| a.variable + 1).max().unwrap_or(0);
    let mut induced = Vec::new();
    for v in 0..num_vars {
        let mut lower: Option<i32> = None;
        let mut upper: Option<i32> = None;
        let mut holes: Vec<i32> = Vec::new();
        for a in atomics.iter().filter(|a| a.variable == v) {
            match a.comparison {
                Comparison::Equal => {
                    lower = Some(lower.map_or(a.value, |l| l.max(a.value)));
                    upper = Some(upper.map_or(a.value, |u| u.min(a.value)));
                }
                Comparison::GreaterEqual => lower = Some(lower.map_or(a.value, |l| l.max(a.value))),
                Comparison::LessEqual => upper = Some(upper.map_or(a.value, |u| u.min(a.value))),
                Comparison::NotEqual => holes.push(a.value),
            }
        }
        match (lower, upper) {
            (Some(l), Some(u)) => {
                let values: Vec<i32> = (l..=u).filter(|x| !holes.contains(x)).collect();
                if values.is_empty() {
                    return None;
                }
                induced.push(Some(values));
            }
            _ => induced.push(None),
        }
    }
    Some(VariableState { induced })
}

#[test]
fn conflict_disconnected_node() {
    // 1 -> 2 -> 1, node 3 outside = NOT a single SCC
    let premises = [eq("x1", 2), eq("x2", 1)].concat();

    let state = prepare_for_conflict_check(&premises, None).expect("no conflicting atomics");

    let checker = SCCChecker { successors: vec![var("x1"), var("x2"), var("x3")] };

    assert!(checker.check(state, &premises, None));
}

#[test]
fn conflict_unreachable_backwards() {
    // no one reaches 1
    let premises = [eq("x1", 2), eq("x2", 3), eq("x3", 2)].concat();

    let state = prepare_for_conflict_check(&premises, None).expect("no conflicting atomics");

    let checker = SCCChecker { successors: vec![var("x1"), var("x2"), var("x3")] };

    assert!(checker.check(state, &premises, None));
}

#[test]
fn conflict_conflict_unreachable_backwards2() {
    // 1 reaches all but 2 and 3 reach eachother
    let premises = [new_sparse_variable("x1", vec![1, 2, 3]), eq("x2", 3), eq("x3", 2)].concat();

    let state = prepare_for_conflict_check(&premises, None).expect("no conflicting atomics");

    let checker = SCCChecker { successors: vec![var("x1"), var("x2"), var("x3")] };

    assert!(checker.check(state, &premises, None));
}

#[test]
fn valid_scc() {
    // Valid SCC
    let premises = [new_sparse_variable("x1", vec![1, 2, 3]), eq("x2", 3), eq("x3", 1)].concat();

    let state = prepare_for_conflict_check(&premises, None).expect("no conflicting atomics");

    let checker = SCCChecker { successors: vec![var("x1"), var("x2"), var("x3")] };

    assert!(!checker.check(state, &premises, None));
}

#[test]
fn valid_scc2() {
    // Valid SCC
    let premises = [
        new_sparse_variable("x1", vec![3, 4, 5]),
        new_sparse_variable("x2", vec![1, 3, 5]),
        new_sparse_variable("x3", vec![1, 2, 5]),
        new_sparse_variable("x4", vec![1, 3, 5]),
        new_sparse_variable("x5", vec![1, 2, 3]),
    ]
    .concat();

    let state = prepare_for_conflict_check(&premises, None).expect("no conflicting atomics");

    let checker = SCCChecker { successors: vec![var("x1"), var("x2"), var("x3"), var("x4"), var("x5")] };

    assert!(!checker.check(state, &premises, None));
}

#[test]
fn invalid_scc() {
    // Valid SCC
    let premises = [
        new_sparse_variable("x1", vec![3, 5]),
        new_sparse_variable("x2", vec![1, 3, 5]),
        new_sparse_variable("x3", vec![1, 2, 5]),
        new_sparse_variable("x4", vec![1, 3, 5]),
        new_sparse_variable("x5", vec![1, 2, 3]),
    ]
    .concat();

    let state = prepare_for_conflict_check(&premises, None).expect("no conflicting atomics");

    let checker = SCCChecker { successors: vec![var("x1"), var("x2"), var("x3"), var("x4"), var("x5")] };

    assert!(checker.check(state, &premises, None));
}

#[test]
fn scc_checker_single_node_is_not_a_conflict() {
    let premises = eq("x1", 1);
    let state = prepare_for_conflict_check(&premises, None).expect("no conflicting atomics");
    let checker = SCCChecker { successors: vec![var("x1")] };
    assert!(!checker.check(state, &premises, None));
}

#[test]
fn scc_checker_unbounded_variable_has_no_edges() {
    // x2 is unbounded: node 2 has no outgoing edges, so nothing reaches 1 from it
    let premises = eq("x1", 2);
    let state = prepare_for_conflict_check(&premises, None).expect("no conflicting atomics");
    let checker = SCCChecker { successors: vec![var("x1"), var("x2")] };
    assert!(checker.check(state, &premises, None));
}

#[test]
fn scc_checker_two_cycle_is_connected() {
    let premises = [eq("x1", 2), eq("x2", 1)].concat();
    let state = prepare_for_conflict_check(&premises, None).expect("no conflicting atomics");
    let checker = SCCChecker { successors: vec![var("x1"), var("x2")] };
    assert!(!checker.check(state, &premises, None));
}

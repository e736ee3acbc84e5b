use circuit::domains::{Conflict, Domains};
use circuit::options::CircuitPropagationMethod;
use circuit::propagator::{CircuitConstructor, CircuitPropagator, PropagatorConstructorContext};

/// Creates the propagator over `successors`, as a solver would when the
/// constraint is added.
fn add_propagator(successors: Vec<usize>, method: CircuitPropagationMethod) -> CircuitPropagator {
    let constructor = CircuitConstructor { successors, constraint_tag: 0, propagation_method: method };
    let mut context = PropagatorConstructorContext { registrations: Vec::new() };
    constructor.create(&mut context)
}

/// The total number of values left in the domains.
fn total_size(domains: &Domains) -> usize {
    (0..domains.num_variables()).map(|v| domains.size(v)).sum()
}

/// Runs the propagator, first from scratch, then until the domains no longer
/// change or a conflict is found.
fn propagate_to_fixed_point(propagator: &mut CircuitPropagator, domains: &mut Domains) -> Result<(), Conflict> {
    propagator.propagate_from_scratch(domains)?;
    loop {
        let before = total_size(domains);
        propagator.propagate(domains)?;
        if total_size(domains) == before {
            return Ok(());
        }
    }
}

//VALID FULL HAMILTONIAN PATH (NO CONFLICT)
#[test]
fn circuit_hamiltonian_path_conflict_detection() {
    let mut state = Domains::new();

    let x = state.new_interval_variable(2, 2);
    let y = state.new_interval_variable(3, 3);
    let z = state.new_interval_variable(1, 1);

    let mut propagator = add_propagator(vec![x, y, z], CircuitPropagationMethod::StrongBridges);

    let result = propagate_to_fixed_point(&mut propagator, &mut state);

    assert!(
        result.is_ok(),
        "If there is a cycle concerning all variables, then no conflict should be reported"
    )
}

// SIMPLE SUBCYCLE (SHOULD CONFLICT)
#[test]
fn circuit_conflict_detection_simple() {
    let mut state = Domains::new();

    let x = state.new_interval_variable(2, 2);
    let y = state.new_interval_variable(1, 1);
    let z = state.new_interval_variable(1, 3);

    let mut propagator = add_propagator(vec![x, y, z], CircuitPropagationMethod::StrongBridges);

    let result = propagate_to_fixed_point(&mut propagator, &mut state);

    assert!(
        result.is_err(),
        "If there is a cycle concerning all variables, then no conflict should be reported"
    )
}

// SELF LOOP REMOVAL
#[test]
fn circuit_removes_self_loops() {
    let mut state = Domains::new();
    let x = state.new_interval_variable(1, 3);
    let y = state.new_interval_variable(1, 3);
    let z = state.new_interval_variable(1, 3);

    let mut propagator = add_propagator(vec![x, y, z], CircuitPropagationMethod::StrongBridges);

    let _ = propagate_to_fixed_point(&mut propagator, &mut state);
    assert!(!state.contains(x, 1), "Self-loop x=1 mst be removed");
}

//SELF LOOP FIXED (CONFLICT)
#[test]
fn circuit_self_loop_fixed() {
    let mut state = Domains::new();
    let x = state.new_interval_variable(1, 1);
    let y = state.new_interval_variable(1, 3);
    let z = state.new_interval_variable(1, 3);

    let mut propagator = add_propagator(vec![x, y, z], CircuitPropagationMethod::StrongBridges);

    let result = propagate_to_fixed_point(&mut propagator, &mut state);
    assert!(result.is_err(), "Forced self-loop = conflict");
}

//Prevent should not prune closing hamilton cycle edge
#[test]
fn circuit_prevent_not_prune_closing_edge() {
    let mut state = Domains::new();
    let x = state.new_interval_variable(2, 2);
    let y = state.new_interval_variable(3, 3);
    let z = state.new_interval_variable(1, 3);

    let mut propagator = add_propagator(vec![x, y, z], CircuitPropagationMethod::StrongBridges);

    let _ = propagate_to_fixed_point(&mut propagator, &mut state);

    assert!(
        state.contains(z, 1),
        "Closing edge z-x completes a full Hamiltonian cycle and must NOT be pruned"
    );
}

//Edge case: single variable must conflict
#[test]
fn circuit_single_variable_conflict() {
    let mut state = Domains::new();

    let x = state.new_interval_variable(1, 1);

    let mut propagator = add_propagator(vec![x], CircuitPropagationMethod::StrongBridges);

    let result = propagate_to_fixed_point(&mut propagator, &mut state);
    assert!(result.is_err(), "Single node with self-loop must conflict");
}

//test two variables okey
#[test]
fn circuit_two_variable_cycle_ok() {
    let mut state = Domains::new();

    let x = state.new_interval_variable(2, 2);
    let y = state.new_interval_variable(1, 1);

    let mut propagator = add_propagator(vec![x, y], CircuitPropagationMethod::StrongBridges);

    let result = propagate_to_fixed_point(&mut propagator, &mut state);
    assert!(result.is_ok(), "2-cycle is a valid Hamiltonian cycle");
}

//test strong bridge detection
#[test]
fn circuit_strong_bridge() {
    let mut state = Domains::new();

    let x1 = state.new_sparse_variable(vec![4, 6]);
    let x2 = state.new_sparse_variable(vec![3, 4]);
    let x3 = state.new_sparse_variable(vec![1, 2]);
    let x4 = state.new_sparse_variable(vec![1, 6]);
    let x5 = state.new_sparse_variable(vec![2, 6]);
    let x6 = state.new_sparse_variable(vec![1, 4, 5]);

    let mut propagator = add_propagator(vec![x1, x2, x3, x4, x5, x6], CircuitPropagationMethod::StrongBridges);

    let result = propagate_to_fixed_point(&mut propagator, &mut state);
    assert!(result.is_ok(), "2-cycle is a valid Hamiltonian cycle");
    assert!(state.contains(x6, 5), "Strong bridge must be enforced!")
}

#[test]
fn circuit_strong_bridge2() {
    let mut state = Domains::new();

    let x1 = state.new_sparse_variable(vec![2, 5]);
    let x2 = state.new_sparse_variable(vec![1, 3, 4]);
    let x3 = state.new_sparse_variable(vec![2, 5]);
    let x4 = state.new_sparse_variable(vec![3]);
    let x5 = state.new_sparse_variable(vec![1, 2]);

    let mut propagator = add_propagator(vec![x1, x2, x3, x4, x5], CircuitPropagationMethod::StrongBridges);

    let result = propagate_to_fixed_point(&mut propagator, &mut state);
    assert!(result.is_ok(), "2-cycle is a valid Hamiltonian cycle");
}

#[test]
fn circuit_articulation_point_conflict() {
    let mut state = Domains::new();

    let x1 = state.new_interval_variable(2, 2);
    let x2 = state.new_interval_variable(1, 4);
    let x3 = state.new_interval_variable(2, 2);
    let x4 = state.new_interval_variable(2, 2);

    let mut propagator = add_propagator(vec![x1, x2, x3, x4], CircuitPropagationMethod::StrongBridges);

    let result = propagate_to_fixed_point(&mut propagator, &mut state);

    assert!(
        result.is_err(),
        "A possible graph with an articulation point cannot contain a Hamiltonian circuit"
    );
}

#[test]
fn circuit_strong_bridge3() {
    let mut state = Domains::new();

    let x1 = state.new_sparse_variable(vec![4, 5]);
    let x2 = state.new_sparse_variable(vec![1, 3]);
    let x3 = state.new_sparse_variable(vec![4]);
    let x4 = state.new_sparse_variable(vec![2, 3]);
    let x5 = state.new_sparse_variable(vec![3]);

    let mut propagator = add_propagator(vec![x1, x2, x3, x4, x5], CircuitPropagationMethod::StrongBridges);

    let result = propagate_to_fixed_point(&mut propagator, &mut state);
    assert!(result.is_ok(), "2-cycle is a valid Hamiltonian cycle");
}

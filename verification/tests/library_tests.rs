use circuit::checking::VariableState;
use circuit::scc_checker::SCCChecker;
use circuit::strong_bridge_checker::StrongBridgeChecker;
use circuit::domains::{Comparison, Conflict, Domains, InferenceCode, InferenceLabel, Predicate};
use circuit::options::CircuitPropagationMethod;
use circuit::propagator::{
    domain_value_to_index, index_to_domain_value, CircuitConstructor, CircuitPropagator, DomainEvents,
    InferenceChecker, InferenceCheckers, PropagatorConstructorContext,
};

fn pred(variable: usize, comparison: Comparison, value: i32) -> Predicate {
    Predicate { variable, comparison, value }
}

fn make(successors: Vec<usize>, method: CircuitPropagationMethod) -> CircuitPropagator {
    let constructor = CircuitConstructor { successors, constraint_tag: 7, propagation_method: method };
    let mut context = PropagatorConstructorContext { registrations: Vec::new() };
    constructor.create(&mut context)
}

fn values(d: &Domains, var: usize) -> Vec<i32> {
    d.iterate_domain(var)
}

fn sparse(d: &mut Domains, domains: &[&[i32]]) -> Vec<usize> {
    domains.iter().map(|vals| d.new_sparse_variable(vals.to_vec())).collect()
}

#[test]
fn value_index_conversions() {
    assert_eq!(domain_value_to_index(5), 4);
    assert_eq!(domain_value_to_index(1), 0);
    assert_eq!(index_to_domain_value(4), 5);
    assert_eq!(index_to_domain_value(0), 1);
}

#[test]
fn default_method_is_base() {
    assert_eq!(CircuitPropagationMethod::default(), CircuitPropagationMethod::Base);
}

#[test]
fn sparse_variable_is_sorted_without_repeats() {
    let mut d = Domains::new();
    let x = d.new_sparse_variable(vec![5, 1, 3, 1]);
    assert_eq!(values(&d, x), vec![1, 3, 5]);
    assert_eq!(d.iterate_initial_domain(x), vec![1, 3, 5]);
    assert_eq!(d.lower_bound(x), 1);
    assert_eq!(d.upper_bound(x), 5);
    assert_eq!(d.get_holes(x), vec![2, 4]);
    assert_eq!(d.fixed_value(x), None);
    assert_eq!(d.size(x), 3);
}

#[test]
fn interval_variable_holds_its_range() {
    let mut d = Domains::new();
    let x = d.new_interval_variable(2, 4);
    assert_eq!(values(&d, x), vec![2, 3, 4]);
    assert!(d.get_holes(x).is_empty());
}

#[test]
fn post_removes_and_records() {
    let mut d = Domains::new();
    let x = d.new_interval_variable(1, 3);
    let code = InferenceCode { constraint_tag: 0, label: InferenceLabel::CircuitPrevent };
    assert!(d.post(pred(x, Comparison::NotEqual, 2), vec![], code).is_ok());
    assert_eq!(values(&d, x), vec![1, 3]);
    assert_eq!(d.trail().len(), 1);
    assert_eq!(d.trail()[0].predicate, pred(x, Comparison::NotEqual, 2));
    // Removing an absent value changes nothing and is not recorded.
    assert!(d.post(pred(x, Comparison::NotEqual, 2), vec![], code).is_ok());
    assert_eq!(d.trail().len(), 1);
    assert!(d.post(pred(x, Comparison::GreaterEqual, 2), vec![], code).is_ok());
    assert_eq!(d.fixed_value(x), Some(3));
    assert!(d.post(pred(x, Comparison::LessEqual, 3), vec![], code).is_ok());
    assert_eq!(d.trail().len(), 2);
}

#[test]
fn post_that_empties_a_domain_fails() {
    let mut d = Domains::new();
    let x = d.new_interval_variable(1, 1);
    let code = InferenceCode { constraint_tag: 0, label: InferenceLabel::StrongBridge };
    let reason = vec![pred(x, Comparison::Equal, 1)];
    match d.post(pred(x, Comparison::NotEqual, 1), reason, code) {
        Err(Conflict::EmptyDomain { predicate, reason, code: c }) => {
            assert_eq!(predicate, pred(x, Comparison::NotEqual, 1));
            assert_eq!(reason, vec![pred(x, Comparison::Equal, 1)]);
            assert_eq!(c, code);
        }
        _ => panic!("expected an empty domain"),
    }
    assert_eq!(values(&d, x), vec![1]);
    assert!(matches!(d.post(pred(x, Comparison::Equal, 2), vec![], code), Err(Conflict::EmptyDomain { .. })));
}

#[test]
fn constructor_registers_every_successor_twice() {
    let mut d = Domains::new();
    let vars = sparse(&mut d, &[&[2], &[1]]);
    let constructor = CircuitConstructor { successors: vars.clone(), constraint_tag: 3, propagation_method: CircuitPropagationMethod::Base };
    let mut context = PropagatorConstructorContext { registrations: Vec::new() };
    let p = constructor.create(&mut context);
    assert_eq!(context.registrations.len(), 4);
    assert_eq!(context.registrations[0].variable, vars[0]);
    assert_eq!(context.registrations[0].events, DomainEvents::Assign);
    assert!(!context.registrations[0].backtrack);
    assert!(context.registrations[1].backtrack);
    assert_eq!(context.registrations[3].local_id, 1);
    assert!(!p.use_strong_bridges);
    assert_eq!(p.inference_code, InferenceCode { constraint_tag: 3, label: InferenceLabel::CircuitPrevent });
    assert_eq!(p.scc_code, InferenceCode { constraint_tag: 3, label: InferenceLabel::SCCCheck });
    assert_eq!(p.name(), "Circuit");

    let constructor = CircuitConstructor { successors: vars, constraint_tag: 3, propagation_method: CircuitPropagationMethod::StrongBridges };
    let mut context = PropagatorConstructorContext { registrations: Vec::new() };
    let p = constructor.create(&mut context);
    assert_eq!(context.registrations[2].events, DomainEvents::AnyInt);
    assert!(p.use_strong_bridges);
}

#[test]
fn constructor_registers_checkers() {
    let constructor = CircuitConstructor { successors: vec![0, 1], constraint_tag: 9, propagation_method: CircuitPropagationMethod::Base };
    let mut checkers = InferenceCheckers { checkers: Vec::new() };
    constructor.add_inference_checkers(&mut checkers);
    assert_eq!(checkers.checkers.len(), 3);
    assert_eq!(checkers.checkers[0].0.label, InferenceLabel::CircuitPrevent);
    assert!(matches!(&checkers.checkers[0].1, InferenceChecker::Circuit(c) if c.successors == vec![0, 1]));
    assert_eq!(checkers.checkers[1].0.label, InferenceLabel::StrongBridge);
    assert!(matches!(&checkers.checkers[1].1, InferenceChecker::StrongBridge(c) if c.successors == vec![0, 1]));
    assert_eq!(checkers.checkers[2].0.label, InferenceLabel::SCCCheck);
    assert!(matches!(&checkers.checkers[2].1, InferenceChecker::SCC(c) if c.successors == vec![0, 1]));
}

#[test]
fn check_reports_a_subcycle_with_its_assignments() {
    let mut d = Domains::new();
    let vars = sparse(&mut d, &[&[2], &[1], &[1, 2]]);
    let p = make(vars.clone(), CircuitPropagationMethod::Base);
    match p.check(&d) {
        Err(Conflict::Propagator { conjunction, code }) => {
            assert_eq!(conjunction, vec![pred(vars[0], Comparison::Equal, 2), pred(vars[1], Comparison::Equal, 1)]);
            assert_eq!(code, p.inference_code);
        }
        _ => panic!("expected a subcycle"),
    }
}

#[test]
fn check_accepts_a_hamiltonian_cycle_and_open_chains() {
    let mut d = Domains::new();
    let vars = sparse(&mut d, &[&[2], &[3], &[1]]);
    let p = make(vars, CircuitPropagationMethod::Base);
    assert!(p.check(&d).is_ok());

    let mut d = Domains::new();
    let vars = sparse(&mut d, &[&[2], &[3], &[1, 2]]);
    let p = make(vars, CircuitPropagationMethod::Base);
    assert!(p.check(&d).is_ok());
}

#[test]
fn check_finds_a_cycle_reached_from_a_chain() {
    // 1 -> 2 -> 3 -> 2: the walk from node 1 returns to node 2.
    let mut d = Domains::new();
    let vars = sparse(&mut d, &[&[2], &[3], &[2]]);
    let p = make(vars.clone(), CircuitPropagationMethod::Base);
    match p.check(&d) {
        Err(Conflict::Propagator { conjunction, .. }) => {
            assert_eq!(
                conjunction,
                vec![pred(vars[0], Comparison::Equal, 2), pred(vars[1], Comparison::Equal, 3), pred(vars[2], Comparison::Equal, 2)]
            );
        }
        _ => panic!("expected a subcycle"),
    }
}

#[test]
fn prevent_removes_the_closing_edge_of_a_chain() {
    let mut d = Domains::new();
    let vars = sparse(&mut d, &[&[2], &[1, 3], &[1, 2]]);
    let p = make(vars.clone(), CircuitPropagationMethod::Base);
    assert!(p.prevent(&mut d).is_ok());
    assert_eq!(values(&d, vars[1]), vec![3]);
    let last = d.trail().last().unwrap();
    assert_eq!(last.predicate, pred(vars[1], Comparison::NotEqual, 1));
    assert_eq!(last.reason, vec![pred(vars[0], Comparison::Equal, 2)]);
    assert_eq!(last.code, p.inference_code);
}

#[test]
fn prevent_keeps_the_edge_that_closes_all_nodes() {
    let mut d = Domains::new();
    let vars = sparse(&mut d, &[&[2], &[3], &[1, 2]]);
    let p = make(vars.clone(), CircuitPropagationMethod::Base);
    assert!(p.prevent(&mut d).is_ok());
    assert_eq!(values(&d, vars[2]), vec![1, 2]);
    assert_eq!(d.trail().len(), 0);
}

#[test]
fn remove_self_loops_removes_each_own_label() {
    let mut d = Domains::new();
    let vars = sparse(&mut d, &[&[1, 2, 3], &[1, 2, 3], &[1, 2, 3]]);
    let p = make(vars.clone(), CircuitPropagationMethod::Base);
    assert!(p.remove_self_loops(&mut d).is_ok());
    assert_eq!(values(&d, vars[0]), vec![2, 3]);
    assert_eq!(values(&d, vars[1]), vec![1, 3]);
    assert_eq!(values(&d, vars[2]), vec![1, 2]);
    assert_eq!(d.trail().len(), 3);
    assert!(d.trail()[0].reason.is_empty());
}

#[test]
fn connectivity_of_the_possible_graph() {
    let mut d = Domains::new();
    let vars = sparse(&mut d, &[&[2], &[3], &[1, 2]]);
    let p = make(vars, CircuitPropagationMethod::Base);
    assert!(p.is_strongly_connected(&d));

    let mut d = Domains::new();
    let vars = sparse(&mut d, &[&[2], &[1], &[1, 2]]);
    let p = make(vars, CircuitPropagationMethod::Base);
    assert!(!p.is_strongly_connected(&d));

    let mut visited = vec![false; 3];
    p.dfs_forward(&d, 0, &mut visited);
    assert_eq!(visited, vec![true, true, false]);
    let mut visited = vec![false; 3];
    p.dfs_backward(&d, 0, &mut visited);
    assert_eq!(visited, vec![true, true, true]);
}

#[test]
fn reachability_without_an_edge() {
    let mut d = Domains::new();
    let vars = sparse(&mut d, &[&[2, 3], &[1], &[2]]);
    let p = make(vars, CircuitPropagationMethod::Base);
    let (reachable, _) = p.reachable_without_edge(&d, 0, 1);
    assert!(reachable);
    let (reachable, visited) = p.reachable_without_edge(&d, 1, 0);
    assert!(!reachable);
    assert_eq!(visited, vec![false, true, false]);
}

#[test]
fn full_graph_explanation_lists_bounds_and_holes() {
    let mut d = Domains::new();
    let vars = sparse(&mut d, &[&[2, 4], &[1]]);
    let p = make(vars.clone(), CircuitPropagationMethod::Base);
    assert_eq!(
        p.create_full_graph_explanation(&d),
        vec![
            pred(vars[0], Comparison::GreaterEqual, 2),
            pred(vars[0], Comparison::LessEqual, 4),
            pred(vars[0], Comparison::NotEqual, 3),
            pred(vars[1], Comparison::GreaterEqual, 1),
            pred(vars[1], Comparison::LessEqual, 1),
        ]
    );
}

#[test]
fn strong_bridge_explanation_lists_removed_exits() {
    let mut d = Domains::new();
    let vars = sparse(&mut d, &[&[2, 3], &[1, 3], &[1, 2]]);
    let code = InferenceCode { constraint_tag: 0, label: InferenceLabel::CircuitPrevent };
    assert!(d.post(pred(vars[1], Comparison::NotEqual, 3), vec![], code).is_ok());
    let p = make(vars.clone(), CircuitPropagationMethod::StrongBridges);
    // Without 1 -> 3, node 1 reaches only 1 and 2; 2 -> 3 was removed.
    let visited = vec![true, true, false];
    assert_eq!(p.create_strong_bridge_explanation(&d, &visited, 0, 2), vec![pred(vars[1], Comparison::NotEqual, 3)]);
}

#[test]
fn strong_bridges_are_assigned() {
    let mut d = Domains::new();
    let vars = sparse(&mut d, &[&[2, 3], &[1, 3], &[1, 2]]);
    let code = InferenceCode { constraint_tag: 0, label: InferenceLabel::CircuitPrevent };
    assert!(d.post(pred(vars[1], Comparison::NotEqual, 3), vec![], code).is_ok());
    let mut p = make(vars.clone(), CircuitPropagationMethod::StrongBridges);
    assert!(p.strong_bridge_prevent_with_stats(&mut d).is_ok());
    // Node 3 can only be entered from node 1.
    assert_eq!(d.fixed_value(vars[0]), Some(3));
    assert_eq!(p.statistics().number_of_sb_propagations, 1);
    assert_eq!(p.statistics().number_of_scc_propagations, 0);
}

#[test]
fn disconnected_graph_is_a_connectivity_conflict() {
    let mut d = Domains::new();
    let vars = sparse(&mut d, &[&[2], &[1], &[1, 2]]);
    let mut p = make(vars.clone(), CircuitPropagationMethod::StrongBridges);
    match p.strong_bridge_prevent_with_stats(&mut d) {
        Err(Conflict::Propagator { conjunction, code }) => {
            assert_eq!(code, p.scc_code);
            assert_eq!(conjunction.len(), 6);
        }
        _ => panic!("expected a connectivity conflict"),
    }
    assert_eq!(p.statistics().number_of_scc_propagations, 1);
    assert!(p.strong_bridge_prevent(&mut d).is_err());
}

#[test]
fn complete_hamiltonian_assignment_is_accepted() {
    let mut d = Domains::new();
    let vars = sparse(&mut d, &[&[3], &[4], &[2], &[1]]);
    let mut p = make(vars, CircuitPropagationMethod::StrongBridges);
    assert!(p.propagate(&mut d).is_ok());
}

#[test]
fn complete_assignment_with_two_cycles_is_rejected() {
    let mut d = Domains::new();
    let vars = sparse(&mut d, &[&[2], &[1], &[4], &[3]]);
    let mut p = make(vars, CircuitPropagationMethod::Base);
    assert!(p.propagate(&mut d).is_err());
}

#[test]
fn propagation_keeps_a_solution() {
    // 1 -> 3 -> 2 -> 4 -> 1 is a solution; it must survive propagation.
    let mut d = Domains::new();
    let vars = sparse(&mut d, &[&[2, 3, 4], &[1, 3, 4], &[1, 2, 4], &[1, 2, 3]]);
    let mut p = make(vars.clone(), CircuitPropagationMethod::StrongBridges);
    let code = InferenceCode { constraint_tag: 0, label: InferenceLabel::CircuitPrevent };
    assert!(d.post(pred(vars[0], Comparison::Equal, 3), vec![], code).is_ok());
    assert!(p.propagate(&mut d).is_ok());
    assert!(d.contains(vars[0], 3));
    assert!(d.contains(vars[2], 2));
    assert!(d.contains(vars[1], 4));
    assert!(d.contains(vars[3], 1));
    // The closing edge 3 -> 1 of the chain 1 -> 3 is gone.
    assert!(!d.contains(vars[2], 1));
}

#[test]
fn base_method_does_not_look_for_strong_bridges() {
    let mut d = Domains::new();
    let vars = sparse(&mut d, &[&[2], &[1], &[1, 2]]);
    let mut p = make(vars, CircuitPropagationMethod::Base);
    assert!(p.propagate_from_scratch(&mut d).is_err());
    let mut d = Domains::new();
    let vars = sparse(&mut d, &[&[2, 3], &[3], &[1, 2]]);
    let mut p = make(vars.clone(), CircuitPropagationMethod::Base);
    assert!(p.propagate(&mut d).is_ok());
    assert_eq!(p.statistics().number_of_sb_propagations, 0);
}

#[test]
fn variable_state_reports_induced_domains() {
    let state = VariableState { induced: vec![Some(vec![1, 2]), None] };
    assert_eq!(state.iter_induced_domain(0), Some(vec![1, 2]));
    assert_eq!(state.iter_induced_domain(1), None);
    assert_eq!(state.iter_induced_domain(5), None);
}

#[test]
fn connectivity_checker_agrees_with_the_propagator() {
    for doms in [vec![vec![2], vec![1], vec![1, 2]], vec![vec![2], vec![3], vec![1, 2]]] {
        let mut d = Domains::new();
        let vars: Vec<usize> = doms.iter().map(|v| d.new_sparse_variable(v.clone())).collect();
        let p = make(vars.clone(), CircuitPropagationMethod::StrongBridges);
        let state = VariableState { induced: doms.iter().map(|v| Some(v.clone())).collect() };
        let checker = SCCChecker { successors: vars };
        assert_eq!(checker.check(state, &[], None), !p.is_strongly_connected(&d));
    }
}

#[test]
fn bridge_checker_agrees_with_the_propagator() {
    let doms = vec![vec![2, 3], vec![1], vec![1, 2]];
    let mut d = Domains::new();
    let vars: Vec<usize> = doms.iter().map(|v| d.new_sparse_variable(v.clone())).collect();
    let p = make(vars.clone(), CircuitPropagationMethod::StrongBridges);
    for (u, v) in [(0usize, 1usize), (0, 2), (2, 0), (2, 1)] {
        let mut induced: Vec<Option<Vec<i32>>> = doms.iter().map(|v| Some(v.clone())).collect();
        induced[u] = Some(doms[u].iter().copied().filter(|&x| x != v as i32 + 1).collect());
        let state = VariableState { induced };
        let checker = StrongBridgeChecker { successors: vars.clone() };
        let consequent = pred(vars[u], Comparison::Equal, v as i32 + 1);
        let (reachable, _) = p.reachable_without_edge(&d, u, v);
        assert_eq!(checker.check(state, &[], Some(&consequent)), !reachable);
    }
}

#[test]
fn check_stops_at_a_value_that_names_no_node() {
    // Node 1 is assigned the value 5, which names no node of three: the walk
    // from node 2 through 3 and 1 stops there, and no subcycle is reported.
    let mut d = Domains::new();
    let vars = sparse(&mut d, &[&[5], &[3], &[1]]);
    let p = make(vars, CircuitPropagationMethod::Base);
    assert!(p.check(&d).is_ok());
}

#[test]
fn connectivity_search_ignores_values_that_name_no_node() {
    let mut d = Domains::new();
    let vars = sparse(&mut d, &[&[2, 7], &[3, 9], &[1]]);
    let p = make(vars, CircuitPropagationMethod::Base);
    assert!(p.is_strongly_connected(&d));
    let mut visited = vec![false; 3];
    p.dfs_forward(&d, 0, &mut visited);
    assert_eq!(visited, vec![true, true, true]);
}

#[test]
fn explanation_builders_accept_values_that_name_no_node() {
    let mut d = Domains::new();
    let vars = sparse(&mut d, &[&[2, 4, 7], &[3], &[1]]);
    let p = make(vars, CircuitPropagationMethod::Base);
    let e = p.create_full_graph_explanation(&d);
    assert_eq!(
        e,
        vec![
            pred(0, Comparison::GreaterEqual, 2),
            pred(0, Comparison::LessEqual, 7),
            pred(0, Comparison::NotEqual, 3),
            pred(0, Comparison::NotEqual, 5),
            pred(0, Comparison::NotEqual, 6),
            pred(1, Comparison::GreaterEqual, 3),
            pred(1, Comparison::LessEqual, 3),
            pred(2, Comparison::GreaterEqual, 1),
            pred(2, Comparison::LessEqual, 1),
        ]
    );
}

#[test]
fn both_entry_points_give_the_same_domains() {
    let build = || {
        let mut d = Domains::new();
        let vars = sparse(&mut d, &[&[4, 6], &[3, 4], &[1, 2], &[1, 6], &[2, 6], &[1, 4, 5]]);
        (d, vars)
    };
    let (mut d1, vars) = build();
    let (mut d2, _) = build();
    let p1 = make(vars.clone(), CircuitPropagationMethod::StrongBridges);
    let mut p2 = make(vars.clone(), CircuitPropagationMethod::StrongBridges);
    let r1 = p1.propagate_from_scratch(&mut d1);
    let r2 = p2.propagate(&mut d2);
    assert_eq!(r1.is_ok(), r2.is_ok());
    for &v in &vars {
        assert_eq!(values(&d1, v), values(&d2, v));
    }
    assert_eq!(d1.trail().len(), d2.trail().len());
    assert_eq!(p2.statistics().number_of_scc_propagations, 0);
    assert_eq!(p1.statistics().number_of_sb_propagations, 0);
}

#[test]
fn remove_self_loops_stops_at_the_first_forced_self_loop() {
    // Node 2 can only be its own successor: removing that empties its
    // domain. Node 1's self-loop was removed before; node 3 is untouched.
    let mut d = Domains::new();
    let vars = sparse(&mut d, &[&[1, 2, 3], &[2], &[1, 2, 3]]);
    let p = make(vars.clone(), CircuitPropagationMethod::Base);
    let r = p.remove_self_loops(&mut d);
    assert!(matches!(r, Err(Conflict::EmptyDomain { predicate, .. }) if predicate == pred(vars[1], Comparison::NotEqual, 2)));
    assert_eq!(values(&d, vars[0]), vec![2, 3]);
    assert_eq!(values(&d, vars[1]), vec![2]);
    assert_eq!(values(&d, vars[2]), vec![1, 2, 3]);
    assert_eq!(d.trail().len(), 1);
}

#[test]
fn base_propagation_accepts_initial_values_that_name_no_node() {
    // The initial domain of node 1 held 7, which names no node of three; it
    // is gone before propagation, which the base method then accepts.
    let mut d = Domains::new();
    let vars = sparse(&mut d, &[&[2, 7], &[3], &[1]]);
    let code = InferenceCode { constraint_tag: 0, label: InferenceLabel::CircuitPrevent };
    assert!(d.post(pred(vars[0], Comparison::NotEqual, 7), Vec::new(), code).is_ok());
    let p = make(vars.clone(), CircuitPropagationMethod::Base);
    assert!(p.propagate_from_scratch(&mut d).is_ok());
    assert_eq!(values(&d, vars[0]), vec![2]);
}

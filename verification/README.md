# circuit

A propagator for the circuit constraint (the successor variables of `n` nodes
must form one cycle through all nodes), with inference checkers for its
conflicts and strong bridge propagations, verified with Verus.

- `src/domains.rs`: the domain store the propagator reads and shrinks, with the
  trail of inferences.
- `src/graph.rs`, `src/walk.rs`, `src/search.rs`: reachability, walks along
  assigned successors, and the verified depth-first searches.
- `src/propagator.rs`: the propagator's constructor, state, explanations and
  propagation entry points.
- `src/subcycles.rs`: self-loop removal, subcycle detection and subcycle
  prevention.
- `src/connectivity.rs`: strong connectivity of the possible graph and strong
  bridges.
- `src/bitset.rs`: the trusted contracts of the `fixedbitset` calls.
- `src/checking.rs`, `src/scc_checker.rs`, `src/strong_bridge_checker.rs`: the
  inference checkers.
- `app/`: the command-line form of the propagation method.

//! Graph construction and the bounded cycle search, against hand-computed
//! values and a brute-force oracle.

use arb_engine::address::Address;
use arb_engine::graph::{create_graph, resolve_lookup, PairLookup};
use arb_engine::pair::{ArbitrageError, Pair};
use arb_engine::pgraph::graph_edges_from;
use arb_engine::registry::{PairRegistry, Protocol};
use arb_engine::search::find_shortest_path;
use arb_engine::trade::find_best_trade;

fn addr(n: u128) -> Address {
    Address::new(0, n)
}

fn pool(factory: u128, t0: u128, t1: u128, r0: u128, r1: u128, fee: u32) -> Pair {
    Pair::from_parts(addr(1000 + factory), addr(factory), addr(t0), addr(t1), r0, r1, fee)
}

fn registry_of(pools: Vec<Pair>) -> PairRegistry {
    let mut reg = PairRegistry::new();
    let mut factories: Vec<Address> = Vec::new();
    for p in &pools {
        if !factories.contains(&p.factory) {
            factories.push(p.factory);
            let prot = Protocol::new(p.factory, Address::new(9, p.factory.lo), 30);
            reg.add_protocol(prot).unwrap();
        }
    }
    let mut reg2 = PairRegistry { protocols: reg.protocols, custom_pairs: reg.custom_pairs };
    for p in pools {
        for prot in reg2.protocols.iter_mut() {
            if prot.factory == p.factory {
                prot.pairs.push(p);
            }
        }
    }
    reg2
}

#[test]
fn graph_holds_both_directions_and_start_edges() {
    // one pool {R=1, A=2}: edges R->A, A->R, and start->A since R is traded
    let pools = vec![pool(7, 1, 2, 1000, 1000, 30)];
    let g = create_graph(pools, addr(1));
    // node 0 is the start; labels[0] is the traded token
    assert_eq!(g.labels[0], addr(1));
    let node_a = g.labels.iter().position(|l| *l == addr(2)).unwrap();
    let node_r = g.labels.iter().position(|l| *l == addr(1)).unwrap();
    assert_eq!(node_r, 0); // start shares the traded label; R's own node comes after
    let node_r_own = g
        .labels
        .iter()
        .enumerate()
        .skip(1)
        .find(|(_, l)| **l == addr(1))
        .map(|(i, _)| i)
        .unwrap();
    // start node: exactly one outgoing edge, to A, labelled with pool 0
    let from_start = graph_edges_from(&g.g, 0);
    assert_eq!(from_start.len(), 1);
    assert_eq!(from_start[0].1, node_a);
    assert_eq!(from_start[0].2, 0);
    // R's own node: one edge to A
    let from_r = graph_edges_from(&g.g, node_r_own);
    assert_eq!(from_r.len(), 1);
    assert_eq!(from_r[0].1, node_a);
    // A's node: one edge back to R's own node (never to start)
    let from_a = graph_edges_from(&g.g, node_a);
    assert_eq!(from_a.len(), 1);
    assert_eq!(from_a[0].1, node_r_own);
}

#[test]
fn single_pool_yields_degenerate_path() {
    // one balanced pool: no cycle beats the input, the search returns the
    // empty path at the input weight
    let reg = registry_of(vec![pool(7, 1, 2, 1000, 1000, 30)]);
    let (path, weight) = find_best_trade(&reg, 100, &addr(1)).unwrap();
    assert_eq!(weight, 100);
    assert!(path.token_order.is_empty());
    assert!(path.pair_order.is_empty());
}

#[test]
fn two_pools_at_different_prices_find_the_cycle() {
    // pool F7 {R,A} balanced; pool F8 {R,A} with R cheap: buy A on F8,
    // sell on F7
    let reg = registry_of(vec![
        pool(7, 1, 2, 1000, 1000, 30),
        pool(8, 1, 2, 900, 1100, 30),
    ]);
    let (path, weight) = find_best_trade(&reg, 50, &addr(1)).unwrap();
    assert_eq!(weight, 53);
    let tokens: Vec<Address> = path.token_order.clone();
    assert_eq!(tokens, vec![addr(1), addr(2), addr(1)]);
    assert_eq!(path.pair_order.len(), 2);
    assert_eq!(path.pair_order[0].factory_address, addr(8));
    assert_eq!(path.pair_order[1].factory_address, addr(7));
    // evaluating the returned path through the registry ends in the weight
    let amounts = path.get_amounts_out(50, &reg).unwrap();
    assert_eq!(amounts.first().copied(), Some(50));
    assert_eq!(amounts.last().copied(), Some(weight));
}

#[test]
fn triangle_cycle_of_length_three() {
    // R/A (10000,10000,30), A/B (10000,9000,30), B/R as {R,B} (11000,9000,30)
    let reg = registry_of(vec![
        pool(7, 1, 2, 10000, 10000, 30),
        pool(7, 2, 3, 10000, 9000, 30),
        pool(7, 1, 3, 11000, 9000, 30),
    ]);
    let (path, weight) = find_best_trade(&reg, 100, &addr(1)).unwrap();
    assert_eq!(weight, 105);
    assert_eq!(path.pair_order.len(), 3);
    let tokens: Vec<Address> = path.token_order.clone();
    assert_eq!(tokens, vec![addr(1), addr(2), addr(3), addr(1)]);
    let amounts = path.get_amounts_out(100, &reg).unwrap();
    assert_eq!(amounts, vec![100, 98, 87, 105]);
}

/// Brute force over all edge-simple walks of at most four edges from the
/// start node to the traded token's node, on the same graph the search
/// uses, with the same per-edge weights.
fn oracle_best(reg: &PairRegistry, input: u128, traded: Address) -> u128 {
    let pools = reg.get_all_pairs();
    let g = create_graph(pools, traded);
    let goal = g
        .labels
        .iter()
        .enumerate()
        .skip(1)
        .find(|(_, l)| **l == traded)
        .map(|(i, _)| i);
    let goal = match goal {
        Some(goal) => goal,
        None => return input,
    };
    let mut best = input;
    let mut stack: Vec<(usize, Vec<usize>, u128)> = vec![(0, Vec::new(), input)];
    while let Some((node, used, w)) = stack.pop() {
        if node == goal && !used.is_empty() && w > best {
            best = w;
        }
        if used.len() >= 4 || node == goal && !used.is_empty() {
            continue;
        }
        for (e, target, widx) in graph_edges_from(&g.g, node) {
            if used.contains(&e) {
                continue;
            }
            let pair = g.pairs[widx as usize];
            let w2 = pair.calculate_weight(g.labels[node], w).unwrap();
            let mut used2 = used.clone();
            used2.push(e);
            stack.push((target, used2, w2));
        }
    }
    best
}

#[test]
fn search_matches_brute_force_oracle_on_small_graphs() {
    let graphs = vec![
        vec![pool(7, 1, 2, 1000, 1000, 30)],
        vec![pool(7, 1, 2, 1000, 1000, 30), pool(8, 1, 2, 900, 1100, 30)],
        vec![
            pool(7, 1, 2, 10000, 10000, 30),
            pool(7, 2, 3, 10000, 9000, 30),
            pool(7, 1, 3, 11000, 9000, 30),
        ],
        vec![
            pool(7, 1, 2, 5000, 7000, 25),
            pool(8, 1, 2, 7000, 5200, 30),
            pool(7, 2, 3, 9000, 9000, 0),
            pool(8, 1, 3, 8000, 9500, 30),
        ],
    ];
    for pools in graphs {
        let reg = registry_of(pools);
        for input in [10u128, 100, 1000] {
            let (_, weight) = find_best_trade(&reg, input, &addr(1)).unwrap();
            assert_eq!(weight, oracle_best(&reg, input, addr(1)));
        }
    }
}

#[test]
fn custom_pairs_join_the_graph_but_not_resolution() {
    // a protocol pool and a cheaper custom pool under no registered factory
    let mut reg = registry_of(vec![pool(7, 1, 2, 1000, 1000, 30)]);
    let custom = Pair::from_parts(addr(1500), addr(500), addr(1), addr(2), 900, 1100, 30);
    reg.add_custom_pair(custom);
    let (path, weight) = find_best_trade(&reg, 50, &addr(1)).unwrap();
    // the cycle goes through the custom pool first, then the protocol pool
    assert_eq!(weight, 53);
    assert_eq!(path.pair_order[0].factory_address, addr(500));
    assert_eq!(path.pair_order[1].factory_address, addr(7));
    // but a custom pool never resolves for evaluation or execution
    assert_eq!(
        path.get_amounts_out(50, &reg),
        Err(arb_engine::pair::ArbitrageError::ProtocolMissing)
    );
}

#[test]
fn lookups_resolve_through_the_registry() {
    let reg = registry_of(vec![pool(7, 1, 2, 1000, 1000, 30)]);
    let found = resolve_lookup(&reg, &PairLookup::new(addr(7), (addr(1), addr(2)))).unwrap();
    assert_eq!(found.reserve0, 1000);
    assert_eq!(
        resolve_lookup(&reg, &PairLookup::new(addr(99), (addr(1), addr(2)))),
        Err(ArbitrageError::ProtocolMissing)
    );
    assert_eq!(
        resolve_lookup(&reg, &PairLookup::new(addr(7), (addr(1), addr(3)))),
        Err(ArbitrageError::PairMissing)
    );
}

#[test]
fn search_without_traded_token_reports_no_path() {
    let pools = vec![pool(7, 2, 3, 1000, 1000, 30)];
    let g = create_graph(pools, addr(1));
    let r = find_shortest_path(&g, &addr(1), 100);
    assert_eq!(r.unwrap_err(), arb_engine::pair::ArbitrageError::NoPath);
}

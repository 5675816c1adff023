//! The pending pool, decoding, simulation, scoring and execution planning.

use arb_engine::address::Address;
use arb_engine::executor::{plan_gas_top_up, prepare_execution};
use arb_engine::pair::{ArbitrageError, Pair};
use arb_engine::registry::{PairDelta, PairRegistry, Protocol};
use arb_engine::trade::{
    estimate_gas, AbiToken, Gas, PossibleArbitrage, SwapExact, Trade, TradeParams, TradeType,
};
use arb_engine::txpool::{
    decode_trade_params, gas_profile_of, get_profitable_arbitrage, TxPool,
};

fn addr(n: u128) -> Address {
    Address::new(0, n)
}

fn pool(factory: u128, t0: u128, t1: u128, r0: u128, r1: u128, fee: u32) -> Pair {
    Pair::from_parts(addr(1000 + factory), addr(factory), addr(t0), addr(t1), r0, r1, fee)
}

fn registry_of(pools: Vec<Pair>) -> PairRegistry {
    let mut reg = PairRegistry::new();
    let mut factories: Vec<Address> = Vec::new();
    for p in &pools {
        if !factories.contains(&p.factory) {
            factories.push(p.factory);
            reg.add_protocol(Protocol::new(p.factory, Address::new(9, p.factory.lo), 30)).unwrap();
        }
    }
    for p in pools {
        for prot in reg.protocols.iter_mut() {
            if prot.factory == p.factory {
                prot.pairs.push(p);
            }
        }
    }
    reg
}

fn exact_in_trade(hash: u128, factory: u128, amount_in: u128, min_out: u128, deadline: u128) -> Trade {
    let params = TradeParams::ExactInput(SwapExact {
        amount_in,
        min_out,
        path: vec![addr(1), addr(2)],
        to: addr(77),
        deadline,
    });
    Trade::new((hash, 0), Address::new(9, factory), addr(77), params, Gas::Legacy(0), addr(factory))
}

#[test]
fn decode_exact_other_produces_documented_tuple() {
    let tokens = vec![
        AbiToken::Uint(100),
        AbiToken::Uint(90),
        AbiToken::AddressList(vec![addr(1), addr(2)]),
        AbiToken::Addr(addr(77)),
        AbiToken::Uint(999),
    ];
    let decoded = decode_trade_params(&tokens, 0, Some(TradeType::ExactOther)).unwrap().unwrap();
    match decoded {
        TradeParams::ExactInput(s) => {
            assert_eq!(s.amount_in, 100);
            assert_eq!(s.min_out, 90);
            assert_eq!(s.path, vec![addr(1), addr(2)]);
            assert_eq!(s.to, addr(77));
            assert_eq!(s.deadline, 999);
        },
        TradeParams::ExactOutput(_) => panic!("wrong trade kind"),
    }
}

#[test]
fn decode_exact_eth_takes_amount_from_call_value() {
    let tokens = vec![
        AbiToken::Uint(90),
        AbiToken::AddressList(vec![addr(1), addr(2)]),
        AbiToken::Addr(addr(77)),
        AbiToken::Uint(999),
    ];
    let decoded = decode_trade_params(&tokens, 123, Some(TradeType::ExactEth)).unwrap().unwrap();
    match decoded {
        TradeParams::ExactInput(s) => {
            assert_eq!(s.amount_in, 123);
            assert_eq!(s.min_out, 90);
        },
        TradeParams::ExactOutput(_) => panic!("wrong trade kind"),
    }
}

#[test]
fn decode_eth_for_exact_takes_bound_from_call_value() {
    let tokens = vec![
        AbiToken::Uint(40),
        AbiToken::AddressList(vec![addr(1), addr(2)]),
        AbiToken::Addr(addr(77)),
        AbiToken::Uint(999),
    ];
    let decoded = decode_trade_params(&tokens, 500, Some(TradeType::EthForExact)).unwrap().unwrap();
    match decoded {
        TradeParams::ExactOutput(s) => {
            assert_eq!(s.amount_out, 40);
            assert_eq!(s.max_in, 500);
        },
        TradeParams::ExactInput(_) => panic!("wrong trade kind"),
    }
}

#[test]
fn decode_unknown_function_is_skipped() {
    let tokens = vec![AbiToken::Uint(1)];
    assert!(decode_trade_params(&tokens, 0, None).unwrap().is_none());
}

#[test]
fn decode_rejects_malformed_tokens() {
    let tokens = vec![AbiToken::Uint(1), AbiToken::Uint(2)];
    assert!(matches!(
        decode_trade_params(&tokens, 0, Some(TradeType::ExactOther)),
        Err(ArbitrageError::AbiTypeMismatch)
    ));
}

#[test]
fn gas_profile_follows_type_tag() {
    assert_eq!(gas_profile_of(None, Some(7), None, None), Ok(Gas::Legacy(7)));
    assert_eq!(gas_profile_of(Some(0), Some(7), None, None), Ok(Gas::Legacy(7)));
    assert_eq!(gas_profile_of(Some(2), None, Some(9), Some(3)), Ok(Gas::London(9, 3)));
    assert_eq!(gas_profile_of(None, None, None, None), Err(ArbitrageError::AbiTypeMismatch));
    assert_eq!(gas_profile_of(Some(2), Some(7), None, None), Err(ArbitrageError::AbiTypeMismatch));
}

#[test]
fn gas_allowance_formula() {
    // 500000 * 7 + (4 - 1) * 62500 * 7
    assert_eq!(estimate_gas(Gas::London(7, 3), 4), 3_500_000 + 1_312_500);
    assert_eq!(estimate_gas(Gas::Legacy(2), 1), 1_000_000);
}

#[test]
fn opportunity_scoring_floors_profit_at_zero() {
    let path = arb_engine::graph::Path { token_order: vec![], pair_order: vec![] };
    let arb = PossibleArbitrage::new(path, Gas::Legacy(1), 90, 100, 1);
    assert_eq!(arb.profit, 0);
    let path = arb_engine::graph::Path { token_order: vec![], pair_order: vec![] };
    let arb = PossibleArbitrage::new(path, Gas::London(7, 3), 130, 100, 4);
    assert_eq!(arb.profit, 30);
    assert_eq!(arb.gas_in_eth, estimate_gas(Gas::London(7, 3), 4));
}

#[test]
fn engine_never_emits_without_net_profit() {
    let mk = |profit_out: u128, input: u128, price: u128| {
        let path = arb_engine::graph::Path { token_order: vec![], pair_order: vec![] };
        PossibleArbitrage::new(path, Gas::Legacy(price), profit_out, input, 1)
    };
    // profit 5, gas 500000 * 1: not emitted
    assert!(get_profitable_arbitrage(vec![mk(105, 100, 1)]).is_none());
    // no candidates at all
    assert!(get_profitable_arbitrage(vec![]).is_none());
    // profit 30 with zero gas price wins over profit 5
    let best = get_profitable_arbitrage(vec![mk(105, 100, 0), mk(130, 100, 0)]).unwrap();
    assert_eq!(best.profit, 30);
    assert!(best.profit > best.gas_in_eth);
}

#[test]
fn simulate_and_unsimulate_restore_reserves_bit_for_bit() {
    let mut prot = Protocol::new(addr(7), addr(97), 30);
    prot.pairs.push(pool(7, 1, 2, 1000, 1000, 30));
    prot.pairs.push(pool(7, 2, 3, 500, 700, 30));
    let deltas = vec![
        PairDelta { token_in: addr(1), token_out: addr(2), amount_in: 100, amount_out: 90 },
        PairDelta { token_in: addr(3), token_out: addr(2), amount_in: 50, amount_out: 40 },
        // a second hit on the first pool, undone before the first snapshot
        PairDelta { token_in: addr(2), token_out: addr(1), amount_in: 10, amount_out: 9 },
    ];
    let snaps = prot.simulate(&deltas).unwrap();
    assert_eq!((prot.pairs[0].reserve0, prot.pairs[0].reserve1), (1000 + 100 - 9, 1000 - 90 + 10));
    assert_eq!((prot.pairs[1].reserve0, prot.pairs[1].reserve1), (500 - 40, 700 + 50));
    prot.unsimulate(&snaps);
    assert_eq!((prot.pairs[0].reserve0, prot.pairs[0].reserve1), (1000, 1000));
    assert_eq!((prot.pairs[1].reserve0, prot.pairs[1].reserve1), (500, 700));
}

#[test]
fn simulate_unknown_pool_changes_nothing() {
    let mut prot = Protocol::new(addr(7), addr(97), 30);
    prot.pairs.push(pool(7, 1, 2, 1000, 1000, 30));
    let deltas = vec![
        PairDelta { token_in: addr(1), token_out: addr(5), amount_in: 100, amount_out: 90 },
    ];
    assert_eq!(prot.simulate(&deltas), Err(ArbitrageError::PairMissing));
    assert_eq!((prot.pairs[0].reserve0, prot.pairs[0].reserve1), (1000, 1000));
}

#[test]
fn pending_swap_moves_price_and_engine_emits_only_while_simulated() {
    // two balanced pools on two factories: nothing is profitable as-is
    let reg = registry_of(vec![
        pool(7, 1, 2, 1000, 1000, 30),
        pool(8, 1, 2, 1000, 1000, 30),
    ]);
    let mut pool_state = TxPool::new(reg, addr(1));
    let empty = pool_state.get_arbitrages(50, 10, 1).unwrap();
    assert!(get_profitable_arbitrage(empty).is_none());

    // a pending exact-in swap of 100 R on factory 7 moves its pool
    pool_state.insert_trade(exact_in_trade(0xabc, 7, 100, 80, 1_000_000));
    let scored = pool_state.get_arbitrages(50, 10, 1).unwrap();
    assert!(!scored.is_empty());
    let best = get_profitable_arbitrage(scored).unwrap();
    // the first fan-out amount reaching the maximum net profit wins
    assert_eq!(best.profit, 3);
    assert_eq!(best.input, 25);
    assert_eq!(best.output, 28);
    // the reserves are bit-equal to the pre-tick state
    for prot in &pool_state.registry.protocols {
        assert_eq!((prot.pairs[0].reserve0, prot.pairs[0].reserve1), (1000, 1000));
    }
    // the swap was marked scored and is not scored twice
    assert!(pool_state.trades[0].simulated);
    let again = pool_state.get_arbitrages(50, 10, 1).unwrap();
    assert!(again.is_empty());
}

#[test]
fn expired_deadline_is_skipped_without_scoring() {
    let reg = registry_of(vec![
        pool(7, 1, 2, 1000, 1000, 30),
        pool(8, 1, 2, 1000, 1000, 30),
    ]);
    let mut pool_state = TxPool::new(reg, addr(1));
    pool_state.insert_trade(exact_in_trade(0xabc, 7, 100, 80, 5));
    // now = 10 > deadline = 5: the swap is skipped and stays unscored
    let scored = pool_state.get_arbitrages(50, 10, 1).unwrap();
    assert!(scored.is_empty());
    assert!(!pool_state.trades[0].simulated);
    // direct check of the validity verdict
    let trade = exact_in_trade(0xabc, 7, 100, 80, 5);
    assert_eq!(
        trade.check_trade_validity(&pool_state.registry, 10),
        Err(ArbitrageError::DeadlineExpired)
    );
}

#[test]
fn violated_bound_is_skipped() {
    let reg = registry_of(vec![pool(7, 1, 2, 1000, 1000, 30)]);
    // out of 100 is 90; a min_out of 95 cannot be met
    let trade = exact_in_trade(0xabc, 7, 100, 95, 1_000_000);
    assert_eq!(trade.check_trade_validity(&reg, 10), Err(ArbitrageError::BoundViolated));
}

#[test]
fn eip1559_gas_rides_through_scoring() {
    let reg = registry_of(vec![
        pool(7, 1, 2, 1000, 1000, 30),
        pool(8, 1, 2, 1000, 1000, 30),
    ]);
    let mut pool_state = TxPool::new(reg, addr(1));
    let params = TradeParams::ExactInput(SwapExact {
        amount_in: 100,
        min_out: 80,
        path: vec![addr(1), addr(2)],
        to: addr(77),
        deadline: 1_000_000,
    });
    let trade = Trade::new((1, 1), Address::new(9, 7), addr(77), params, Gas::London(7, 3), addr(7));
    pool_state.insert_trade(trade);
    let scored = pool_state.get_arbitrages(50, 10, 4).unwrap();
    assert!(!scored.is_empty());
    for arb in &scored {
        assert_eq!(arb.gas, Gas::London(7, 3));
        // gas cost converts via max_fee_per_gas with the retry allowance
        assert_eq!(arb.gas_in_eth, 500_000 * 7 + 3 * (500_000 / 8) * 7);
    }
}

#[test]
fn trades_are_keyed_by_hash() {
    let reg = registry_of(vec![pool(7, 1, 2, 1000, 1000, 30)]);
    let mut pool_state = TxPool::new(reg, addr(1));
    pool_state.insert_trade(exact_in_trade(1, 7, 100, 80, 99));
    pool_state.insert_trade(exact_in_trade(2, 7, 70, 50, 99));
    assert_eq!(pool_state.trades.len(), 2);
    // the same hash replaces its record
    pool_state.insert_trade(exact_in_trade(1, 7, 333, 80, 99));
    assert_eq!(pool_state.trades.len(), 2);
    match &pool_state.trades[0].params {
        TradeParams::ExactInput(s) => assert_eq!(s.amount_in, 333),
        TradeParams::ExactOutput(_) => panic!("wrong kind"),
    }
    // confirmed and vanished hashes drop out
    pool_state.remove_done_trades(&vec![(1, 0)], &vec![]);
    assert_eq!(pool_state.trades.len(), 1);
    assert_eq!(pool_state.trades[0].tx_hash, (2, 0));
    pool_state.remove_done_trades(&vec![], &vec![(2, 0)]);
    assert!(pool_state.trades.is_empty());
}

#[test]
fn update_trades_merges_a_batch_by_hash() {
    let reg = registry_of(vec![pool(7, 1, 2, 1000, 1000, 30)]);
    let mut pool_state = TxPool::new(reg, addr(1));
    pool_state.insert_trade(exact_in_trade(1, 7, 100, 80, 99));
    pool_state.update_trades(vec![
        exact_in_trade(2, 7, 70, 50, 99),
        exact_in_trade(1, 7, 555, 80, 99),
        exact_in_trade(3, 7, 30, 10, 99),
    ]);
    assert_eq!(pool_state.trades.len(), 3);
    match &pool_state.trades[0].params {
        TradeParams::ExactInput(s) => assert_eq!(s.amount_in, 555),
        TradeParams::ExactOutput(_) => panic!("wrong kind"),
    }
    assert_eq!(pool_state.trades[1].tx_hash, (2, 0));
    assert_eq!(pool_state.trades[2].tx_hash, (3, 0));
}

#[test]
fn routers_dispatch_to_their_factory() {
    let reg = registry_of(vec![
        pool(7, 1, 2, 1000, 1000, 30),
        pool(8, 1, 2, 1000, 1000, 30),
    ]);
    let i = reg.find_router(&Address::new(9, 8)).unwrap();
    assert_eq!(reg.protocols[i].factory, addr(8));
    assert!(reg.find_router(&addr(12345)).is_none());
}

#[test]
fn mark_unsimulated_resets_flags() {
    let reg = registry_of(vec![
        pool(7, 1, 2, 1000, 1000, 30),
        pool(8, 1, 2, 1000, 1000, 30),
    ]);
    let mut pool_state = TxPool::new(reg, addr(1));
    pool_state.insert_trade(exact_in_trade(1, 7, 100, 80, 1_000_000));
    pool_state.get_arbitrages(50, 10, 1).unwrap();
    assert!(pool_state.trades[0].simulated);
    pool_state.mark_unsimulated();
    assert!(!pool_state.trades[0].simulated);
}

#[test]
fn execution_plan_covers_input_plus_gas() {
    let reg = registry_of(vec![
        pool(7, 1, 2, 1000, 1000, 30),
        pool(8, 1, 2, 1000, 1000, 30),
    ]);
    let mut pool_state = TxPool::new(reg, addr(1));
    pool_state.insert_trade(exact_in_trade(1, 7, 100, 80, 1_000_000));
    let scored = pool_state.get_arbitrages(50, 10, 1).unwrap();
    let best = get_profitable_arbitrage(scored).unwrap();
    let plan = prepare_execution(&best, &pool_state.registry, 10_000).unwrap();
    assert_eq!(plan.input, best.input);
    assert_eq!(plan.min_output, best.input + best.gas_in_eth);
    assert_eq!(plan.deadline, 10_000 + 120);
    assert_eq!(plan.token_path, best.path.token_order);
    assert_eq!(plan.pool_path.len(), best.path.pair_order.len());
    assert_eq!(plan.fee_path, vec![30, 30]);
    // pool addresses resolve through the registry
    assert_eq!(plan.pool_path, vec![addr(1008), addr(1007)]);
}

#[test]
fn gas_top_up_counts_low_accounts() {
    let balances = vec![5u128, 100, 3];
    let (count, amount) = plan_gas_top_up(2, &balances, 10);
    // two low backups plus the low main account
    assert_eq!(count, 3);
    assert_eq!(amount, 30);
    let (count, amount) = plan_gas_top_up(50, &balances, 10);
    assert_eq!(count, 2);
    assert_eq!(amount, 20);
}

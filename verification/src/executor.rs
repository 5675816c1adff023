//! Assembling an arbitrage execution: everything the on-chain call needs,
//! computed from an opportunity and the live registry. Signing and
//! broadcasting stay outside.

use vstd::prelude::*;
use crate::address::Address;
use crate::graph::{resolve_lookup_spec, resolve_lookup};
use crate::pair::{ArbitrageError, Pair};
use crate::registry::PairRegistry;
use crate::trade::{sat_add128, sat_mul, Gas, PossibleArbitrage};

verus! {

/// How long an assembled call stays valid, in seconds.
pub const EXECUTION_DEADLINE_SECS: u128 = 120;

/// The arguments of one `attempt_arbitrage` call.
#[derive(Clone, Debug)]
pub struct ExecutionPlan {
    /// Amount paid in.
    pub input: u128,
    /// Least output accepted: the input plus the gas allowance.
    pub min_output: u128,
    /// The cycle's tokens.
    pub token_path: Vec<Address>,
    /// The pool contract of each hop.
    pub pool_path: Vec<Address>,
    /// The fee of each hop's pool.
    pub fee_path: Vec<u32>,
    /// Latest acceptable execution time: now plus the allowance window.
    pub deadline: u128,
    /// Gas profile to ride on.
    pub gas: Gas,
}

/// Resolve an opportunity into call arguments: the minimum output covers
/// the input plus gas, each hop contributes its pool address and fee, and
/// the deadline is two minutes out. The assembly fails exactly when some
/// hop no longer resolves, with the first failing hop's error.
pub fn prepare_execution(arb: &PossibleArbitrage, registry: &PairRegistry, now: u128) -> (r:
    Result<ExecutionPlan, ArbitrageError>)
    ensures
        match r {
            Ok(plan) => {
                &&& plan.input == arb.input
                &&& plan.min_output == sat_add128(arb.input, arb.gas_in_eth)
                &&& plan.deadline == sat_add128(now, EXECUTION_DEADLINE_SECS)
                &&& plan.gas == arb.gas
                &&& plan.token_path@ == arb.path.token_order@
                &&& plan.pool_path@.len() == arb.path.pair_order@.len()
                &&& plan.fee_path@.len() == arb.path.pair_order@.len()
                &&& forall|i: int|
                    0 <= i < arb.path.pair_order@.len() ==> {
                        let resolved = resolve_lookup_spec(
                            *registry,
                            #[trigger] arb.path.pair_order@[i],
                        );
                        &&& resolved is Ok
                        &&& plan.pool_path@[i] == resolved->Ok_0.address
                        &&& plan.fee_path@[i] == resolved->Ok_0.fee
                    }
            },
            Err(e) => exists|i: int|
                #![trigger arb.path.pair_order@[i]]
                0 <= i < arb.path.pair_order@.len() && resolve_lookup_spec(
                    *registry,
                    arb.path.pair_order@[i],
                ) == Err::<Pair, ArbitrageError>(e) && (forall|k: int|
                    0 <= k < i ==> resolve_lookup_spec(
                        *registry,
                        #[trigger] arb.path.pair_order@[k],
                    ) is Ok),
        },
{
    let min_output = match arb.input.checked_add(arb.gas_in_eth) {
        Some(v) => v,
        None => u128::MAX,
    };
    let deadline = match now.checked_add(EXECUTION_DEADLINE_SECS) {
        Some(v) => v,
        None => u128::MAX,
    };
    let n = arb.path.pair_order.len();
    let mut pool_path: Vec<Address> = Vec::new();
    let mut fee_path: Vec<u32> = Vec::new();
    let mut i: usize = 0;
    while i < n
        invariant
            n == arb.path.pair_order@.len(),
            i <= n,
            pool_path@.len() == i,
            fee_path@.len() == i,
            forall|k: int|
                0 <= k < i ==> {
                    let resolved = resolve_lookup_spec(
                        *registry,
                        #[trigger] arb.path.pair_order@[k],
                    );
                    &&& resolved is Ok
                    &&& pool_path@[k] == resolved->Ok_0.address
                    &&& fee_path@[k] == resolved->Ok_0.fee
                },
        decreases n - i,
    {
        let pair = match resolve_lookup(registry, &arb.path.pair_order[i]) {
            Ok(pair) => pair,
            Err(e) => {
                proof {
                    assert(resolve_lookup_spec(*registry, arb.path.pair_order@[i as int])
                        == Err::<Pair, ArbitrageError>(e));
                }
                return Err(e);
            },
        };
        pool_path.push(pair.address);
        fee_path.push(pair.fee);
        i = i + 1;
    }
    Ok(
        ExecutionPlan {
            input: arb.input,
            min_output,
            token_path: crate::trade::clone_addresses(&arb.path.token_order),
            pool_path,
            fee_path,
            deadline,
            gas: arb.gas,
        },
    )
}

/// How many low accounts need a top-up, the main account counted too, and
/// the total amount to withdraw for them: the configured reserve for each.
pub fn plan_gas_top_up(main_balance: u128, balances: &Vec<u128>, reserve: u128) -> (r: (
    usize,
    u128,
))
    requires
        balances@.len() < usize::MAX,
    ensures
        r.0 == count_low(balances@, reserve) + (if main_balance < reserve {
            1int
        } else {
            0int
        }),
        r.1 == sat_mul(reserve, r.0 as u128),
{
    let mut low: usize = 0;
    let mut i: usize = 0;
    while i < balances.len()
        invariant
            i <= balances@.len(),
            low == count_low(balances@.take(i as int), reserve),
            low <= i,
        decreases balances@.len() - i,
    {
        proof {
            assert(balances@.take(i + 1).drop_last() =~= balances@.take(i as int));
            assert(balances@.take(i + 1).last() == balances@[i as int]);
            reveal_with_fuel(Seq::filter, 2);
        }
        if balances[i] < reserve {
            low = low + 1;
        }
        i = i + 1;
    }
    proof {
        assert(balances@.take(balances@.len() as int) =~= balances@);
    }
    let top_ups = if main_balance < reserve {
        low + 1
    } else {
        low
    };
    let amount = match reserve.checked_mul(top_ups as u128) {
        Some(v) => v,
        None => u128::MAX,
    };
    (top_ups, amount)
}

/// How many balances fall short of the reserve.
pub open spec fn count_low(balances: Seq<u128>, reserve: u128) -> int {
    balances.filter(|b: u128| b < reserve).len() as int
}

} // verus!

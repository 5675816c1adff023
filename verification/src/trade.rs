//! Candidate trades: gas economics, scored opportunities, and the best
//! cycle for one input amount.

use vstd::prelude::*;
use crate::address::Address;
use crate::graph::{amounts_out_spec, edge_ok, registry_resolves_all, Path, SwapGraph};
use crate::pair::{ArbitrageError, Pair};
use crate::pgraph::graph_edges;
use crate::registry::{lemma_all_pairs_wf, sat_sub, PairRegistry};
use crate::search::{
    find_shortest_path, lemma_walk_amounts, path_matches, price_safe, winning_walk, MAX_NUM_SWAPS,
    PRICE_CAP,
};

verus! {

/// Gas the executor budgets for one arbitrage attempt.
pub const GAS_ESTIMATE: u32 = 500000;

/// A transaction's gas profile: a single legacy price, or a London-style
/// `(max_fee, max_priority_fee)` pair.
#[derive(PartialEq, Eq, Structural, Clone, Copy, Debug)]
pub enum Gas {
    /// Pre-London: one gas price.
    Legacy(u128),
    /// London: maximum fee and maximum priority fee per gas.
    London(u128, u128),
}

/// The price per gas a profile pays at worst: the legacy price, or the
/// London maximum fee.
pub open spec fn gas_price_of(gas: Gas) -> u128 {
    match gas {
        Gas::Legacy(price) => price,
        Gas::London(max_fee, _) => max_fee,
    }
}

/// Saturating product of two 128-bit amounts.
pub open spec fn sat_mul(a: u128, b: u128) -> u128 {
    if a * b > u128::MAX {
        u128::MAX
    } else {
        (a * b) as u128
    }
}

/// Saturating sum of two 128-bit amounts.
pub open spec fn sat_add128(a: u128, b: u128) -> u128 {
    if a + b > u128::MAX {
        u128::MAX
    } else {
        (a + b) as u128
    }
}

/// The whole gas allowance of one opportunity in reserve-token units:
/// `GAS_ESTIMATE` at the profile's price for the successful attempt, plus
/// an eighth of the estimate at that price for each losing attempt. The
/// one-eighth failure share is a tunable heuristic, not a measurement.
pub open spec fn estimate_gas_spec(gas: Gas, attempts: u8) -> u128 {
    let price = gas_price_of(gas);
    let success = sat_mul(GAS_ESTIMATE as u128, price);
    let fail = sat_mul((GAS_ESTIMATE / 8) as u128, price);
    sat_add128(success, sat_mul(fail, (attempts - 1) as u128))
}

/// Exec saturating multiply.
fn mul_sat(a: u128, b: u128) -> (r: u128)
    ensures
        r == sat_mul(a, b),
{
    match a.checked_mul(b) {
        Some(v) => v,
        None => u128::MAX,
    }
}

/// The gas allowance for one opportunity, converted to reserve-token units
/// under the assumption that the reserve token is the wrapped native coin.
pub fn estimate_gas(gas: Gas, attempts: u8) -> (r: u128)
    requires
        attempts >= 1,
    ensures
        r == estimate_gas_spec(gas, attempts),
{
    let price = match gas {
        Gas::Legacy(price) => price,
        Gas::London(max_fee, _max_priority_fee) => max_fee,
    };
    let success = mul_sat(GAS_ESTIMATE as u128, price);
    let fail = mul_sat((GAS_ESTIMATE / 8) as u128, price);
    let retries = mul_sat(fail, (attempts - 1) as u128);
    match success.checked_add(retries) {
        Some(v) => v,
        None => u128::MAX,
    }
}

/// A scored candidate: a cycle, the gas profile it would ride on, and its
/// economics.
#[derive(Clone, Debug)]
pub struct PossibleArbitrage {
    /// The cycle to execute.
    pub path: Path,
    /// Gas profile inherited from the pending swap being chased.
    pub gas: Gas,
    /// Input amount fed into the cycle.
    pub input: u128,
    /// Output the cycle returns.
    pub output: u128,
    /// `max(0, output - input)`.
    pub profit: u128,
    /// The whole gas allowance in reserve-token units.
    pub gas_in_eth: u128,
}

impl PossibleArbitrage {
    /// Score a cycle: the profit is the output net of the input, floored
    /// at zero, and the gas allowance follows [`estimate_gas_spec`].
    pub fn new(path: Path, gas: Gas, output: u128, input: u128, attempts: u8) -> (r:
        PossibleArbitrage)
        requires
            attempts >= 1,
        ensures
            r.path == path,
            r.gas == gas,
            r.input == input,
            r.output == output,
            r.profit == sat_sub(output, input),
            r.gas_in_eth == estimate_gas_spec(gas, attempts),
    {
        let profit = if output < input {
            0
        } else {
            output - input
        };
        let gas_in_eth = estimate_gas(gas, attempts);
        PossibleArbitrage { path, gas, output, input, profit, gas_in_eth }
    }
}

/// The shape every search result has, stated without the graph: either the
/// degenerate empty path at the input weight, or a cycle of one to
/// [`MAX_NUM_SWAPS`] hops that starts and ends at the traded token and
/// beats the input.
pub open spec fn best_trade_shape(traded: Address, input: u128, path: Path, w: u128) -> bool {
    ||| (path.token_order@.len() == 0 && path.pair_order@.len() == 0 && w == input)
    ||| {
        &&& path.token_order@.len() == path.pair_order@.len() + 1
        &&& 1 <= path.pair_order@.len() <= MAX_NUM_SWAPS
        &&& path.token_order@[0] == traded
        &&& path.token_order@.last() == traded
        &&& w > input
    }
}

/// Every pool of the registry keeps both reserves within the search's
/// overflow-safe bound.
pub open spec fn registry_price_safe(reg: PairRegistry) -> bool {
    forall|k: int|
        0 <= k < reg.all_pairs().len() ==> (#[trigger] reg.all_pairs()[k]).reserve0 <= PRICE_CAP
            && reg.all_pairs()[k].reserve1 <= PRICE_CAP
}

/// Some pool of the registry names the token on either side.
pub open spec fn registry_holds_token(reg: PairRegistry, t: Address) -> bool {
    exists|k: int|
        0 <= k < reg.all_pairs().len() && ((#[trigger] reg.all_pairs()[k]).token0 == t
            || reg.all_pairs()[k].token1 == t)
}

/// A non-degenerate result's amounts: evaluating the returned path through
/// the registry succeeds and ends exactly in the returned weight.
pub open spec fn trade_amounts_ok(reg: PairRegistry, input: u128, path: Path, w: u128) -> bool {
    path.pair_order@.len() > 0 ==> {
        &&& amounts_out_spec(reg, path.token_order@, path.pair_order@, input) is Ok
        &&& amounts_out_spec(reg, path.token_order@, path.pair_order@, input)->Ok_0.len()
            == path.token_order@.len()
        &&& amounts_out_spec(reg, path.token_order@, path.pair_order@, input)->Ok_0[0] == input
        &&& amounts_out_spec(reg, path.token_order@, path.pair_order@, input)->Ok_0.last() == w
    }
}

/// Build the graph over every pair of the registry and search it for the
/// best cycle in the traded token for the given input amount. Where the
/// registry resolves all its pairs, the returned weight is exactly what
/// evaluating the returned path against the registry yields.
pub fn find_best_trade(registry: &PairRegistry, amount: u128, target: &Address) -> (r: Result<
    (Path, u128),
    ArbitrageError,
>)
    requires
        registry.wf(),
        registry.all_pairs().len() <= 0x0fff_ffff,
    ensures
        match r {
            Ok(pw) => pw.0.wf() && best_trade_shape(*target, amount, pw.0, pw.1) && (
            registry_resolves_all(*registry) ==> trade_amounts_ok(*registry, amount, pw.0, pw.1)),
            Err(e) => e == ArbitrageError::NoPath || e == ArbitrageError::MathOverflow || e
                == ArbitrageError::MathUnderflow,
        },
        registry_price_safe(*registry) && amount <= PRICE_CAP && registry_holds_token(
            *registry,
            *target,
        ) ==> r is Ok,
{
    let all_pairs = registry.get_all_pairs();
    proof {
        lemma_all_pairs_wf(*registry);
    }
    let graph = crate::graph::create_graph(all_pairs, *target);
    proof {
        if registry_price_safe(*registry) && registry_holds_token(*registry, *target) {
            assert(price_safe(graph));
            let k = choose|k: int|
                0 <= k < registry.all_pairs().len() && ((#[trigger] registry.all_pairs()[
                k]).token0 == *target || registry.all_pairs()[k].token1 == *target);
            assert(graph.pair_in_graph(k, *target));
            assert(crate::graph::node_slot(graph.labels@, *target) != -1);
        }
    }
    let (path, weight) = match find_shortest_path(&graph, target, amount) {
        Ok(pw) => pw,
        Err(e) => {
            return Err(e);
        },
    };
    proof {
        if path.token_order@.len() != 0 {
            let (tokens, edges) = choose|tokens: Seq<usize>, edges: Seq<usize>|
                winning_walk(graph, *target, amount, tokens, edges, weight) && path_matches(
                    graph,
                    path,
                    tokens,
                    edges,
                );
            crate::graph::lemma_label_slot_bounds(graph.labels@, *target, 1);
            assert(path.token_order@[0] == graph.labels@[tokens[0] as int]);
            assert(path.token_order@.last() == graph.labels@[tokens.last() as int]);
            if registry_resolves_all(*registry) {
                assert forall|i: int|
                    0 <= i < edges.len() implies resolve_lookup_spec_of_edge(
                    *registry,
                    graph,
                    path.pair_order@[i],
                    edges[i],
                ) by {
                    assert(edge_ok(graph.labels@, graph.pairs@, graph_edges(graph.g)[edges[i] as int]));
                    let pidx = graph_edges(graph.g)[edges[i] as int].2 as int;
                    assert(graph.pairs@[pidx] == registry.all_pairs()[pidx]);
                }
                lemma_walk_amounts(
                    graph,
                    *registry,
                    tokens,
                    edges,
                    path.token_order@,
                    path.pair_order@,
                    amount,
                    weight,
                );
            }
        }
    }
    Ok((path, weight))
}

/// One decoded ABI value of a router swap call, as the decoder consumes
/// it: the amounts, the token path, the recipient, and the deadline.
#[derive(Clone, Debug)]
pub enum AbiToken {
    /// An unsigned amount.
    Uint(u128),
    /// A single address.
    Addr(Address),
    /// A list of addresses: the swap's token path.
    AddressList(Vec<Address>),
}

/// How a known router function moves value: whether the fixed amount is
/// the input or the output, and whether the native coin stands in for one
/// amount parameter.
#[derive(PartialEq, Eq, Structural, Clone, Copy, Debug)]
pub enum TradeType {
    /// Exact-in, the input amount carried as the call's native value.
    ExactEth,
    /// Exact-in with both amounts in the parameters.
    ExactOther,
    /// Exact-out, the input bound carried as the call's native value.
    EthForExact,
    /// Exact-out with both amounts in the parameters.
    OtherForExact,
}

/// An exact-in swap call: fixed input, minimum acceptable output.
#[derive(Clone, Debug)]
pub struct SwapExact {
    /// Fixed amount paid in.
    pub amount_in: u128,
    /// Least output the caller accepts.
    pub min_out: u128,
    /// Token path.
    pub path: Vec<Address>,
    /// Recipient.
    pub to: Address,
    /// Latest acceptable execution time.
    pub deadline: u128,
}

/// An exact-out swap call: fixed output, maximum acceptable input.
#[derive(Clone, Debug)]
pub struct SwapForExact {
    /// Fixed amount taken out.
    pub amount_out: u128,
    /// Most input the caller accepts.
    pub max_in: u128,
    /// Token path.
    pub path: Vec<Address>,
    /// Recipient.
    pub to: Address,
    /// Latest acceptable execution time.
    pub deadline: u128,
}

/// Either decoded swap form.
#[derive(Clone, Debug)]
pub enum TradeParams {
    /// An exact-in swap.
    ExactInput(SwapExact),
    /// An exact-out swap.
    ExactOutput(SwapForExact),
}

/// The token shape every swap call decodes from: two amounts, the path,
/// the recipient, the deadline.
pub open spec fn swap_tokens_shape(tokens: Seq<AbiToken>) -> bool {
    &&& tokens.len() == 5
    &&& tokens[0] is Uint
    &&& tokens[1] is Uint
    &&& tokens[2] is AddressList
    &&& tokens[3] is Addr
    &&& tokens[4] is Uint
}

/// The token shape of an ETH-valued swap call, whose missing amount rides
/// in the call's native value: one amount, the path, the recipient, the
/// deadline.
pub open spec fn eth_call_shape(tokens: Seq<AbiToken>) -> bool {
    &&& tokens.len() == 4
    &&& tokens[0] is Uint
    &&& tokens[1] is AddressList
    &&& tokens[2] is Addr
    &&& tokens[3] is Uint
}

impl SwapExact {
    /// Read an exact-in call out of its decoded tokens:
    /// `(amount_in, min_out, path, to, deadline)`.
    pub fn from_tokens(tokens: &Vec<AbiToken>) -> (r: Result<SwapExact, ArbitrageError>)
        ensures
            match r {
                Ok(s) => swap_tokens_shape(tokens@) && s.amount_in == tokens@[0]->Uint_0
                    && s.min_out == tokens@[1]->Uint_0 && s.path@ == tokens@[2]->AddressList_0@
                    && s.to == tokens@[3]->Addr_0 && s.deadline == tokens@[4]->Uint_0,
                Err(e) => e == ArbitrageError::AbiTypeMismatch && !swap_tokens_shape(tokens@),
            },
    {
        if tokens.len() != 5 {
            return Err(ArbitrageError::AbiTypeMismatch);
        }
        match (&tokens[0], &tokens[1], &tokens[2], &tokens[3], &tokens[4]) {
            (
                AbiToken::Uint(amount_in),
                AbiToken::Uint(min_out),
                AbiToken::AddressList(path),
                AbiToken::Addr(to),
                AbiToken::Uint(deadline),
            ) => Ok(
                SwapExact {
                    amount_in: *amount_in,
                    min_out: *min_out,
                    path: clone_addresses(path),
                    to: *to,
                    deadline: *deadline,
                },
            ),
            _ => Err(ArbitrageError::AbiTypeMismatch),
        }
    }
}

impl SwapForExact {
    /// Read an exact-out call out of its decoded tokens:
    /// `(amount_out, max_in, path, to, deadline)`.
    pub fn from_tokens(tokens: &Vec<AbiToken>) -> (r: Result<SwapForExact, ArbitrageError>)
        ensures
            match r {
                Ok(s) => swap_tokens_shape(tokens@) && s.amount_out == tokens@[0]->Uint_0
                    && s.max_in == tokens@[1]->Uint_0 && s.path@ == tokens@[2]->AddressList_0@
                    && s.to == tokens@[3]->Addr_0 && s.deadline == tokens@[4]->Uint_0,
                Err(e) => e == ArbitrageError::AbiTypeMismatch && !swap_tokens_shape(tokens@),
            },
    {
        if tokens.len() != 5 {
            return Err(ArbitrageError::AbiTypeMismatch);
        }
        match (&tokens[0], &tokens[1], &tokens[2], &tokens[3], &tokens[4]) {
            (
                AbiToken::Uint(amount_out),
                AbiToken::Uint(max_in),
                AbiToken::AddressList(path),
                AbiToken::Addr(to),
                AbiToken::Uint(deadline),
            ) => Ok(
                SwapForExact {
                    amount_out: *amount_out,
                    max_in: *max_in,
                    path: clone_addresses(path),
                    to: *to,
                    deadline: *deadline,
                },
            ),
            _ => Err(ArbitrageError::AbiTypeMismatch),
        }
    }
}

/// Copy a list of addresses.
pub fn clone_addresses(v: &Vec<Address>) -> (r: Vec<Address>)
    ensures
        r@ == v@,
{
    let mut out: Vec<Address> = Vec::new();
    let mut i: usize = 0;
    while i < v.len()
        invariant
            i <= v@.len(),
            out@ == v@.take(i as int),
        decreases v@.len() - i,
    {
        out.push(v[i]);
        proof {
            assert(v@.take(i + 1) =~= v@.take(i as int).push(v@[i as int]));
        }
        i = i + 1;
    }
    proof {
        assert(v@.take(v@.len() as int) =~= v@);
    }
    out
}

/// A structured pending swap: who sent it, where, what it swaps, how it
/// pays for gas, and which protocol's pools it moves.
#[derive(Debug)]
pub struct Trade {
    /// The pending transaction's hash, split in two halves.
    pub tx_hash: (u128, u128),
    /// The router the call is addressed to.
    pub to: Address,
    /// The sender.
    pub from: Address,
    /// The decoded swap.
    pub params: TradeParams,
    /// The gas profile of the pending transaction.
    pub gas: Gas,
    /// The factory whose pools the swap moves.
    pub protocol: Address,
    /// Whether this swap was already scored against current reserves.
    pub simulated: bool,
}

impl Trade {
    /// The swap's token path.
    pub open spec fn spec_path(self) -> Seq<Address> {
        match self.params {
            TradeParams::ExactInput(s) => s.path@,
            TradeParams::ExactOutput(s) => s.path@,
        }
    }

    /// The swap's fixed amount: the input for exact-in, the output for
    /// exact-out.
    pub open spec fn spec_primary_amount(self) -> u128 {
        match self.params {
            TradeParams::ExactInput(s) => s.amount_in,
            TradeParams::ExactOutput(s) => s.amount_out,
        }
    }

    /// The swap's bound: the minimum output for exact-in, the maximum
    /// input for exact-out.
    pub open spec fn spec_bound_amount(self) -> u128 {
        match self.params {
            TradeParams::ExactInput(s) => s.min_out,
            TradeParams::ExactOutput(s) => s.max_in,
        }
    }

    /// The swap's deadline.
    pub open spec fn spec_deadline(self) -> u128 {
        match self.params {
            TradeParams::ExactInput(s) => s.deadline,
            TradeParams::ExactOutput(s) => s.deadline,
        }
    }

    /// A usable swap walks at least one hop.
    pub open spec fn wf(self) -> bool {
        self.spec_path().len() >= 2
    }

    /// Assemble a structured pending swap; it starts unscored.
    pub fn new(
        tx_hash: (u128, u128),
        to: Address,
        from: Address,
        params: TradeParams,
        gas: Gas,
        protocol: Address,
    ) -> (r: Trade)
        ensures
            r.tx_hash == tx_hash,
            r.to == to,
            r.from == from,
            r.params == params,
            r.gas == gas,
            r.protocol == protocol,
            r.simulated == false,
    {
        Trade { tx_hash, to, from, params, gas, protocol, simulated: false }
    }

    /// The swap's token path as a list.
    fn path_tokens(&self) -> (r: Vec<Address>)
        ensures
            r@ == self.spec_path(),
    {
        match &self.params {
            TradeParams::ExactInput(s) => clone_addresses(&s.path),
            TradeParams::ExactOutput(s) => clone_addresses(&s.path),
        }
    }

    /// What revalidation decides: an expired deadline rejects the swap;
    /// then the swap's own amounts are chained against current reserves,
    /// exact-in forward or exact-out backward; a failing leg keeps its
    /// error, a violated bound rejects the swap, and otherwise the
    /// intermediate amounts come back.
    pub open spec fn validity_spec(self, reg: PairRegistry, now: u128) -> Result<
        Seq<u128>,
        ArbitrageError,
    > {
        if self.spec_deadline() < now {
            Err(ArbitrageError::DeadlineExpired)
        } else {
            let lookups = crate::graph::trade_lookups(self.spec_path(), self.protocol);
            match self.params {
                TradeParams::ExactInput(s) => match amounts_out_spec(
                    reg,
                    self.spec_path(),
                    lookups,
                    s.amount_in,
                ) {
                    Err(e) => Err(e),
                    Ok(amts) => if amts.last() <= s.min_out {
                        Err(ArbitrageError::BoundViolated)
                    } else {
                        Ok(amts)
                    },
                },
                TradeParams::ExactOutput(s) => match crate::graph::amounts_in_spec(
                    reg,
                    self.spec_path(),
                    lookups,
                    s.amount_out,
                ) {
                    Err(e) => Err(e),
                    Ok(amts) => if amts[0] >= s.max_in {
                        Err(ArbitrageError::BoundViolated)
                    } else {
                        Ok(amts)
                    },
                },
            }
        }
    }

    /// Revalidate the swap against current reserves: exactly
    /// [`Self::validity_spec`]. In particular, a swap whose deadline is
    /// past is rejected as `DeadlineExpired` before anything is priced.
    pub fn check_trade_validity(&self, registry: &PairRegistry, now: u128) -> (r: Result<
        Vec<u128>,
        ArbitrageError,
    >)
        requires
            self.wf(),
        ensures
            match r {
                Ok(amts) => self.validity_spec(*registry, now) == Ok::<Seq<u128>, ArbitrageError>(
                    amts@,
                ),
                Err(e) => self.validity_spec(*registry, now) == Err::<Seq<u128>, ArbitrageError>(
                    e,
                ),
            },
            r is Ok ==> r->Ok_0@.len() == self.spec_path().len(),
    {
        let deadline = match &self.params {
            TradeParams::ExactInput(s) => s.deadline,
            TradeParams::ExactOutput(s) => s.deadline,
        };
        if deadline < now {
            return Err(ArbitrageError::DeadlineExpired);
        }
        let tokens = self.path_tokens();
        let path = match Path::from_trade_tokens(tokens, self.protocol) {
            Ok(path) => path,
            Err(e) => {
                return Err(e);
            },
        };
        match &self.params {
            TradeParams::ExactInput(s) => {
                let amounts = match path.get_amounts_out(s.amount_in, registry) {
                    Ok(a) => a,
                    Err(e) => {
                        return Err(e);
                    },
                };
                proof {
                    crate::graph::lemma_amounts_out_len(
                        *registry,
                        path.token_order@,
                        path.pair_order@,
                        s.amount_in,
                    );
                }
                if amounts[amounts.len() - 1] <= s.min_out {
                    return Err(ArbitrageError::BoundViolated);
                }
                Ok(amounts)
            },
            TradeParams::ExactOutput(s) => {
                let amounts = match path.get_amounts_in(s.amount_out, registry) {
                    Ok(a) => a,
                    Err(e) => {
                        return Err(e);
                    },
                };
                proof {
                    crate::graph::lemma_amounts_in_len(
                        *registry,
                        path.token_order@,
                        path.pair_order@,
                        s.amount_out,
                    );
                }
                if amounts[0] >= s.max_in {
                    return Err(ArbitrageError::BoundViolated);
                }
                Ok(amounts)
            },
        }
    }

    /// The reserve movements this swap causes, one leg per hop: the leg's
    /// input is credited, its output debited.
    pub fn deltas_of(&self, amounts: &Vec<u128>) -> (r: Vec<crate::registry::PairDelta>)
        requires
            self.wf(),
            amounts@.len() == self.spec_path().len(),
        ensures
            r@.len() == self.spec_path().len() - 1,
            forall|i: int|
                0 <= i < r@.len() ==> #[trigger] r@[i] == (crate::registry::PairDelta {
                    token_in: self.spec_path()[i],
                    token_out: self.spec_path()[i + 1],
                    amount_in: amounts@[i],
                    amount_out: amounts@[i + 1],
                }),
    {
        let tokens = self.path_tokens();
        let n = tokens.len();
        let mut out: Vec<crate::registry::PairDelta> = Vec::new();
        let mut i: usize = 0;
        while i < n - 1
            invariant
                n == self.spec_path().len(),
                n >= 2,
                tokens@ == self.spec_path(),
                amounts@.len() == n,
                i <= n - 1,
                out@.len() == i,
                forall|k: int|
                    0 <= k < i ==> #[trigger] out@[k] == (crate::registry::PairDelta {
                        token_in: self.spec_path()[k],
                        token_out: self.spec_path()[k + 1],
                        amount_in: amounts@[k],
                        amount_out: amounts@[k + 1],
                    }),
            decreases n - 1 - i,
        {
            out.push(
                crate::registry::PairDelta {
                    token_in: tokens[i],
                    token_out: tokens[i + 1],
                    amount_in: amounts[i],
                    amount_out: amounts[i + 1],
                },
            );
            i = i + 1;
        }
        out
    }
}

/// The lookup at a path position resolves to the pair its graph edge
/// carries.
pub open spec fn resolve_lookup_spec_of_edge(
    reg: PairRegistry,
    g: SwapGraph,
    lk: crate::graph::PairLookup,
    e: usize,
) -> bool {
    crate::graph::resolve_lookup_spec(reg, lk) == Ok::<Pair, ArbitrageError>(
        g.pairs@[graph_edges(g.g)[e as int].2 as int],
    )
}

} // verus!

//! The pending-swap pool and the scoring tick.
//!
//! Pending router calls arrive as plain records: decoded ABI tokens, the
//! call's native value, its gas fields, and the router's trade kind. The
//! decoder turns them into structured [`Trade`]s. The pool keys trades by
//! transaction hash, revalidates and simulates each unscored trade against
//! its protocol, scores a fan-out of input amounts through the cycle
//! search, rolls the reserves back, and hands the candidates out.

use vstd::prelude::*;
use crate::address::Address;
use crate::pair::ArbitrageError;
use crate::graph::{resolve_lookup_spec, PairLookup};
use crate::registry::{
    deltas_resolve, lemma_protocol_slot_bounds, lemma_protocol_wf_static,
    lemma_protocols_pairs_update_len, lemma_sim_all_static, lemma_unsimulate_reverts,
    protocol_slot, sat_sub, PairDelta, PairRegistry, Protocol,
};
use crate::trade::{
    estimate_gas_spec, find_best_trade, registry_holds_token, registry_price_safe, Gas,
    PossibleArbitrage, SwapExact, SwapForExact, Trade, TradeParams, TradeType,
};

verus! {

/// How many fan-out amounts each pending swap is scored with.
pub const FAN_OUT: usize = 10;

/// Two token values with the same content.
pub open spec fn token_matches(a: crate::trade::AbiToken, b: crate::trade::AbiToken) -> bool {
    match (a, b) {
        (crate::trade::AbiToken::Uint(x), crate::trade::AbiToken::Uint(y)) => x == y,
        (crate::trade::AbiToken::Addr(x), crate::trade::AbiToken::Addr(y)) => x == y,
        (
            crate::trade::AbiToken::AddressList(x),
            crate::trade::AbiToken::AddressList(y),
        ) => x@ == y@,
        _ => false,
    }
}

/// What a pending transaction's decoded parameters become for a given
/// trade kind: nothing for an unknown kind; otherwise the five swap tokens,
/// with the call's native value standing in for the missing amount of an
/// ETH-valued call (slot `0` for exact-in, slot `1` for exact-out). For a
/// known kind the call decodes successfully exactly when the tokens have
/// the kind's shape; otherwise the tokens are malformed.
pub fn decode_trade_params(
    tokens: &Vec<crate::trade::AbiToken>,
    tx_value: u128,
    trade_type: Option<TradeType>,
) -> (r: Result<Option<TradeParams>, ArbitrageError>)
    ensures
        trade_type is None ==> r == Ok::<Option<TradeParams>, ArbitrageError>(None),
        r is Ok && r->Ok_0 is Some ==> trade_type is Some,
        match r {
            Ok(opt) => match opt {
                Some(params) => match trade_type->Some_0 {
                    TradeType::ExactEth => params is ExactInput && tokens@.len() == 4
                        && tokens@[0] is Uint && tokens@[1] is AddressList && tokens@[2] is Addr
                        && tokens@[3] is Uint && {
                        let s = params->ExactInput_0;
                        &&& s.amount_in == tx_value
                        &&& s.min_out == tokens@[0]->Uint_0
                        &&& s.path@ == tokens@[1]->AddressList_0@
                        &&& s.to == tokens@[2]->Addr_0
                        &&& s.deadline == tokens@[3]->Uint_0
                    },
                    TradeType::ExactOther => params is ExactInput && crate::trade::swap_tokens_shape(
                        tokens@,
                    ) && {
                        let s = params->ExactInput_0;
                        &&& s.amount_in == tokens@[0]->Uint_0
                        &&& s.min_out == tokens@[1]->Uint_0
                        &&& s.path@ == tokens@[2]->AddressList_0@
                        &&& s.to == tokens@[3]->Addr_0
                        &&& s.deadline == tokens@[4]->Uint_0
                    },
                    TradeType::EthForExact => params is ExactOutput && tokens@.len() == 4
                        && tokens@[0] is Uint && tokens@[1] is AddressList && tokens@[2] is Addr
                        && tokens@[3] is Uint && {
                        let s = params->ExactOutput_0;
                        &&& s.amount_out == tokens@[0]->Uint_0
                        &&& s.max_in == tx_value
                        &&& s.path@ == tokens@[1]->AddressList_0@
                        &&& s.to == tokens@[2]->Addr_0
                        &&& s.deadline == tokens@[3]->Uint_0
                    },
                    TradeType::OtherForExact => params is ExactOutput
                        && crate::trade::swap_tokens_shape(tokens@) && {
                        let s = params->ExactOutput_0;
                        &&& s.amount_out == tokens@[0]->Uint_0
                        &&& s.max_in == tokens@[1]->Uint_0
                        &&& s.path@ == tokens@[2]->AddressList_0@
                        &&& s.to == tokens@[3]->Addr_0
                        &&& s.deadline == tokens@[4]->Uint_0
                    },
                },
                None => trade_type is None,
            },
            Err(e) => e == ArbitrageError::AbiTypeMismatch,
        },
        trade_type is Some ==> ((r is Ok) <==> match trade_type->Some_0 {
            TradeType::ExactEth => crate::trade::eth_call_shape(tokens@),
            TradeType::ExactOther => crate::trade::swap_tokens_shape(tokens@),
            TradeType::EthForExact => crate::trade::eth_call_shape(tokens@),
            TradeType::OtherForExact => crate::trade::swap_tokens_shape(tokens@),
        }),
{
    let kind = match trade_type {
        None => {
            return Ok(None);
        },
        Some(kind) => kind,
    };
    match kind {
        TradeType::ExactEth => {
            let mut with_value = clone_tokens(tokens);
            let ghost cloned = with_value@;
            with_value.insert(0, crate::trade::AbiToken::Uint(tx_value));
            proof {
                assert(with_value@ =~= seq![crate::trade::AbiToken::Uint(tx_value)] + cloned);
                if tokens@.len() == 4 {
                    assert(token_matches(with_value@[1], tokens@[0]));
                    assert(token_matches(with_value@[2], tokens@[1]));
                    assert(token_matches(with_value@[3], tokens@[2]));
                    assert(token_matches(with_value@[4], tokens@[3]));
                    assert(with_value@[0] == crate::trade::AbiToken::Uint(tx_value));
                    assert(crate::trade::swap_tokens_shape(with_value@)
                        <==> crate::trade::eth_call_shape(tokens@));
                } else {
                    assert(!crate::trade::swap_tokens_shape(with_value@));
                    assert(!crate::trade::eth_call_shape(tokens@));
                }
            }
            match SwapExact::from_tokens(&with_value) {
                Ok(s) => {
                    proof {
                        assert(with_value@[0] == crate::trade::AbiToken::Uint(tx_value));
                        assert(token_matches(with_value@[1], tokens@[0]));
                        assert(token_matches(with_value@[2], tokens@[1]));
                        assert(token_matches(with_value@[3], tokens@[2]));
                        assert(token_matches(with_value@[4], tokens@[3]));
                    }
                    Ok(Some(TradeParams::ExactInput(s)))
                },
                Err(e) => Err(e),
            }
        },
        TradeType::ExactOther => match SwapExact::from_tokens(tokens) {
            Ok(s) => Ok(Some(TradeParams::ExactInput(s))),
            Err(e) => Err(e),
        },
        TradeType::EthForExact => {
            let mut with_value = clone_tokens(tokens);
            if with_value.len() < 1 {
                proof {
                    assert(!crate::trade::eth_call_shape(tokens@));
                }
                return Err(ArbitrageError::AbiTypeMismatch);
            }
            let ghost cloned = with_value@;
            with_value.insert(1, crate::trade::AbiToken::Uint(tx_value));
            proof {
                assert(with_value@ =~= cloned.take(1) + seq![
                    crate::trade::AbiToken::Uint(tx_value),
                ] + cloned.skip(1));
                if tokens@.len() == 4 {
                    assert(token_matches(with_value@[0], tokens@[0]));
                    assert(token_matches(with_value@[2], tokens@[1]));
                    assert(token_matches(with_value@[3], tokens@[2]));
                    assert(token_matches(with_value@[4], tokens@[3]));
                    assert(with_value@[1] == crate::trade::AbiToken::Uint(tx_value));
                    assert(crate::trade::swap_tokens_shape(with_value@)
                        <==> crate::trade::eth_call_shape(tokens@));
                } else {
                    assert(!crate::trade::swap_tokens_shape(with_value@));
                    assert(!crate::trade::eth_call_shape(tokens@));
                }
            }
            match SwapForExact::from_tokens(&with_value) {
                Ok(s) => {
                    proof {
                        assert(token_matches(with_value@[0], tokens@[0]));
                        assert(with_value@[1] == crate::trade::AbiToken::Uint(tx_value));
                        assert(token_matches(with_value@[2], tokens@[1]));
                        assert(token_matches(with_value@[3], tokens@[2]));
                        assert(token_matches(with_value@[4], tokens@[3]));
                    }
                    Ok(Some(TradeParams::ExactOutput(s)))
                },
                Err(e) => Err(e),
            }
        },
        TradeType::OtherForExact => match SwapForExact::from_tokens(tokens) {
            Ok(s) => Ok(Some(TradeParams::ExactOutput(s))),
            Err(e) => Err(e),
        },
    }
}

/// Copy a token list, content for content.
fn clone_tokens(v: &Vec<crate::trade::AbiToken>) -> (r: Vec<crate::trade::AbiToken>)
    ensures
        r@.len() == v@.len(),
        forall|i: int| 0 <= i < v@.len() ==> token_matches(#[trigger] r@[i], v@[i]),
{
    let mut out: Vec<crate::trade::AbiToken> = Vec::new();
    let mut i: usize = 0;
    while i < v.len()
        invariant
            i <= v@.len(),
            out@.len() == i,
            forall|k: int| 0 <= k < i ==> token_matches(#[trigger] out@[k], v@[k]),
        decreases v@.len() - i,
    {
        let copy = match &v[i] {
            crate::trade::AbiToken::Uint(x) => crate::trade::AbiToken::Uint(*x),
            crate::trade::AbiToken::Addr(a) => crate::trade::AbiToken::Addr(*a),
            crate::trade::AbiToken::AddressList(l) => crate::trade::AbiToken::AddressList(
                crate::trade::clone_addresses(l),
            ),
        };
        out.push(copy);
        i = i + 1;
    }
    out
}

/// The gas profile a transaction's type tag selects: type absent or zero
/// means a legacy price, anything else the London fee pair. It fails, as
/// `AbiTypeMismatch`, exactly when a field the type tag promises is absent.
pub fn gas_profile_of(
    transaction_type: Option<u8>,
    gas_price: Option<u128>,
    max_fee_per_gas: Option<u128>,
    max_priority_fee_per_gas: Option<u128>,
) -> (r: Result<Gas, ArbitrageError>)
    ensures
        match r {
            Ok(gas) => {
                if transaction_type is None || transaction_type->Some_0 == 0 {
                    gas_price is Some && gas == Gas::Legacy(gas_price->Some_0)
                } else {
                    max_fee_per_gas is Some && max_priority_fee_per_gas is Some && gas
                        == Gas::London(
                        max_fee_per_gas->Some_0,
                        max_priority_fee_per_gas->Some_0,
                    )
                }
            },
            Err(e) => e == ArbitrageError::AbiTypeMismatch,
        },
        (r is Err) <==> {
            if transaction_type is None || transaction_type->Some_0 == 0 {
                gas_price is None
            } else {
                max_fee_per_gas is None || max_priority_fee_per_gas is None
            }
        },
{
    let legacy = match transaction_type {
        None => true,
        Some(tag) => tag == 0,
    };
    if legacy {
        match gas_price {
            Some(price) => Ok(Gas::Legacy(price)),
            None => Err(ArbitrageError::AbiTypeMismatch),
        }
    } else {
        match (max_fee_per_gas, max_priority_fee_per_gas) {
            (Some(max_fee), Some(max_priority)) => Ok(Gas::London(max_fee, max_priority)),
            _ => Err(ArbitrageError::AbiTypeMismatch),
        }
    }
}

/// Two trades equal in everything but the scored flag.
pub open spec fn trade_core_eq(a: Trade, b: Trade) -> bool {
    &&& a.tx_hash == b.tx_hash
    &&& a.to == b.to
    &&& a.from == b.from
    &&& a.params == b.params
    &&& a.gas == b.gas
    &&& a.protocol == b.protocol
}

/// Two registries carrying the same protocols, pair for pair, and the
/// same custom pairs.
pub open spec fn same_registry_state(a: PairRegistry, b: PairRegistry) -> bool {
    &&& a.protocols@.len() == b.protocols@.len()
    &&& forall|i: int|
        0 <= i < a.protocols@.len() ==> {
            let pa = #[trigger] a.protocols@[i];
            let pb = #[trigger] b.protocols@[i];
            pa.factory == pb.factory && pa.router == pb.router && pa.swap_fee == pb.swap_fee
                && pa.pairs@ == pb.pairs@
        }
    &&& a.custom_pairs@ == b.custom_pairs@
}

/// First slot holding a trade with this hash, or `-1`.
pub open spec fn hash_slot(trades: Seq<Trade>, h: (u128, u128)) -> int
    decreases trades.len(),
{
    if trades.len() == 0 {
        -1
    } else if trades[0].tx_hash == h {
        0
    } else {
        let rest = hash_slot(trades.drop_first(), h);
        if rest == -1 {
            -1
        } else {
            rest + 1
        }
    }
}

/// The pending pool: the registry of all pools, the trades keyed by
/// transaction hash, and the reserve token profit is measured in.
#[derive(Debug)]
pub struct TxPool {
    /// Every known protocol and custom pool.
    pub registry: PairRegistry,
    /// Pending swaps, unique by transaction hash.
    pub trades: Vec<Trade>,
    /// The reserve token cycles start and end in.
    pub traded: Address,
}

impl TxPool {
    /// Structural invariant: the registry is well-formed and small enough
    /// to graph, trades are usable and unique by hash.
    pub open spec fn wf(self) -> bool {
        &&& self.registry.wf()
        &&& self.registry.all_pairs().len() <= 0x0fff_ffff
        &&& forall|i: int| 0 <= i < self.trades@.len() ==> (#[trigger] self.trades@[i]).wf()
        &&& forall|i: int, j: int|
            0 <= i < j < self.trades@.len() ==> (#[trigger] self.trades@[i]).tx_hash != (
            #[trigger] self.trades@[j]).tx_hash
    }

    /// A pool over a loaded registry, with no pending swaps yet.
    pub fn new(registry: PairRegistry, traded: Address) -> (r: TxPool)
        requires
            registry.wf(),
            registry.all_pairs().len() <= 0x0fff_ffff,
        ensures
            r.wf(),
            r.registry == registry,
            r.trades@.len() == 0,
            r.traded == traded,
    {
        TxPool { registry, trades: Vec::new(), traded }
    }

    /// Slot of the trade with this hash, if any.
    fn find_trade(&self, h: (u128, u128)) -> (r: Option<usize>)
        ensures
            match r {
                Some(i) => i < self.trades@.len() && hash_slot(self.trades@, h) == i as int,
                None => hash_slot(self.trades@, h) == -1,
            },
    {
        let mut i: usize = 0;
        while i < self.trades.len()
            invariant
                i <= self.trades@.len(),
                forall|k: int| 0 <= k < i ==> (#[trigger] self.trades@[k]).tx_hash != h,
            decreases self.trades@.len() - i,
        {
            if self.trades[i].tx_hash.0 == h.0 && self.trades[i].tx_hash.1 == h.1 {
                proof {
                    lemma_hash_slot_found(self.trades@, h, i as int);
                }
                return Some(i);
            }
            i = i + 1;
        }
        proof {
            lemma_hash_slot_missing(self.trades@, h);
        }
        None
    }

    /// Merge one freshly decoded trade in, keyed by its hash: a pending
    /// swap seen again replaces its old record, a new one is appended.
    pub fn insert_trade(&mut self, t: Trade)
        requires
            old(self).wf(),
            t.wf(),
        ensures
            final(self).wf(),
            final(self).registry == old(self).registry,
            final(self).traded == old(self).traded,
            ({
                let i = hash_slot(old(self).trades@, t.tx_hash);
                if i == -1 {
                    final(self).trades@ == old(self).trades@.push(t)
                } else {
                    final(self).trades@ == old(self).trades@.update(i, t)
                }
            }),
    {
        match self.find_trade(t.tx_hash) {
            Some(i) => {
                proof {
                    lemma_hash_slot_bounds(self.trades@, t.tx_hash);
                }
                let ghost before = self.trades@;
                let removed = self.trades.remove(i);
                self.trades.insert(i, t);
                proof {
                    assert(self.trades@ =~= before.update(i as int, t));
                    assert forall|a: int, b: int|
                        0 <= a < b < self.trades@.len() implies (#[trigger] self.trades@[
                    a]).tx_hash != (#[trigger] self.trades@[b]).tx_hash by {
                        assert(before[a].tx_hash != before[b].tx_hash);
                        assert(before[i as int].tx_hash == t.tx_hash);
                    }
                }
            },
            None => {
                proof {
                    lemma_hash_slot_absent(self.trades@, t.tx_hash);
                }
                self.trades.push(t);
            },
        }
    }

    /// Merge a batch of freshly decoded trades in, first to last, each
    /// keyed by its hash.
    pub fn update_trades(&mut self, new_trades: Vec<Trade>)
        requires
            old(self).wf(),
            forall|i: int| 0 <= i < new_trades@.len() ==> (#[trigger] new_trades@[i]).wf(),
        ensures
            final(self).wf(),
            final(self).registry == old(self).registry,
            final(self).traded == old(self).traded,
            final(self).trades@ == merge_all(old(self).trades@, new_trades@),
    {
        let ghost orig = self.trades@;
        let ghost all = new_trades@;
        let mut news = new_trades;
        proof {
            assert(all.take(0) =~= Seq::<Trade>::empty());
            assert(all.skip(0) =~= all);
        }
        while news.len() > 0
            invariant
                self.wf(),
                self.registry == old(self).registry,
                self.traded == old(self).traded,
                orig == old(self).trades@,
                news@.len() <= all.len(),
                news@ == all.skip(all.len() - news@.len()),
                forall|i: int| 0 <= i < all.len() ==> (#[trigger] all[i]).wf(),
                self.trades@ == merge_all(orig, all.take(all.len() - news@.len())),
            decreases news@.len(),
        {
            let ghost done = all.len() - news@.len();
            let t = news.remove(0);
            proof {
                assert(t == all[done]);
                assert(news@ =~= all.skip(done + 1));
                assert(all.take(done + 1) =~= all.take(done).push(t));
                lemma_merge_all_snoc(orig, all.take(done), t);
            }
            self.insert_trade(t);
        }
        proof {
            assert(all.take(all.len() as int) =~= all);
        }
    }

    /// Reset every pending swap to unscored: fresh reserves invalidate
    /// earlier scoring.
    pub fn mark_unsimulated(&mut self)
        requires
            old(self).wf(),
        ensures
            final(self).wf(),
            final(self).registry == old(self).registry,
            final(self).traded == old(self).traded,
            final(self).trades@.len() == old(self).trades@.len(),
            forall|i: int|
                0 <= i < final(self).trades@.len() ==> trade_core_eq(
                    #[trigger] final(self).trades@[i],
                    old(self).trades@[i],
                ) && final(self).trades@[i].simulated == false,
    {
        let n = self.trades.len();
        let mut i: usize = 0;
        while i < n
            invariant
                n == self.trades@.len(),
                n == old(self).trades@.len(),
                i <= n,
                self.registry == old(self).registry,
                self.traded == old(self).traded,
                old(self).wf(),
                forall|k: int|
                    0 <= k < i ==> trade_core_eq(#[trigger] self.trades@[k], old(self).trades@[k])
                        && self.trades@[k].simulated == false,
                forall|k: int| i <= k < n ==> #[trigger] self.trades@[k] == old(self).trades@[k],
            decreases n - i,
        {
            let ghost before = self.trades@;
            let t = self.trades.remove(i);
            self.trades.insert(i, Trade { simulated: false, ..t });
            proof {
                assert(self.trades@ =~= before.update(
                    i as int,
                    Trade { simulated: false, ..before[i as int] },
                ));
            }
            i = i + 1;
        }
        proof {
            assert forall|a: int, b: int|
                0 <= a < b < self.trades@.len() implies (#[trigger] self.trades@[a]).tx_hash != (
            #[trigger] self.trades@[b]).tx_hash by {
                assert(old(self).trades@[a].tx_hash != old(self).trades@[b].tx_hash);
            }
        }
    }

    /// Drop every pending swap whose hash was confirmed in a block or is
    /// no longer visible to the node. Order and everything else stay.
    pub fn remove_done_trades(&mut self, confirmed: &Vec<(u128, u128)>, vanished: &Vec<
        (u128, u128),
    >)
        requires
            old(self).wf(),
        ensures
            final(self).wf(),
            final(self).registry == old(self).registry,
            final(self).traded == old(self).traded,
            final(self).trades@ == old(self).trades@.filter(
                |t: Trade| !confirmed@.contains(t.tx_hash) && !vanished@.contains(t.tx_hash),
            ),
    {
        let ghost pred = |t: Trade|
            !confirmed@.contains(t.tx_hash) && !vanished@.contains(t.tx_hash);
        let ghost orig = self.trades@;
        let n = self.trades.len();
        let mut j: usize = n;
        while j > 0
            invariant
                n == orig.len(),
                orig == old(self).trades@,
                self.registry == old(self).registry,
                self.traded == old(self).traded,
                j <= n,
                pred == (|t: Trade|
                    !confirmed@.contains(t.tx_hash) && !vanished@.contains(t.tx_hash)),
                self.trades@ == orig.take(j as int) + orig.skip(j as int).filter(pred),
                forall|a: int, b: int|
                    0 <= a < b < self.trades@.len() ==> (#[trigger] self.trades@[a]).tx_hash != (
                    #[trigger] self.trades@[b]).tx_hash,
                forall|i: int| 0 <= i < self.trades@.len() ==> (#[trigger] self.trades@[i]).wf(),
            decreases j,
        {
            j = j - 1;
            let ghost before = self.trades@;
            let h = self.trades[j].tx_hash;
            let drop_it = hash_in_list(confirmed, h) || hash_in_list(vanished, h);
            proof {
                assert(before[j as int] == orig[j as int]);
                assert(orig.skip(j as int) =~= seq![orig[j as int]] + orig.skip(j + 1));
                Seq::<Trade>::filter_distributes_over_add(
                    seq![orig[j as int]],
                    orig.skip(j + 1),
                    pred,
                );
                reveal_with_fuel(Seq::filter, 2);
                assert(seq![orig[j as int]].drop_last() =~= Seq::<Trade>::empty());
                if pred(orig[j as int]) {
                    assert(seq![orig[j as int]].filter(pred) =~= seq![orig[j as int]]);
                } else {
                    assert(seq![orig[j as int]].filter(pred) =~= Seq::<Trade>::empty());
                }
            }
            if drop_it {
                self.trades.remove(j);
                proof {
                    assert(self.trades@ =~= orig.take(j as int) + orig.skip(j as int).filter(
                        pred,
                    ));
                    assert forall|a: int, b: int|
                        0 <= a < b < self.trades@.len() implies (#[trigger] self.trades@[
                    a]).tx_hash != (#[trigger] self.trades@[b]).tx_hash by {
                        let a2: int = if a < j {
                            a
                        } else {
                            a + 1
                        };
                        let b2: int = if b < j {
                            b
                        } else {
                            b + 1
                        };
                        assert(self.trades@[a] == before[a2]);
                        assert(self.trades@[b] == before[b2]);
                    }
                }
            } else {
                proof {
                    assert(before.take(j as int) =~= orig.take(j as int));
                    assert(self.trades@ =~= orig.take(j as int) + orig.skip(j as int).filter(
                        pred,
                    ));
                }
            }
        }
        proof {
            assert(orig.take(0) =~= Seq::<Trade>::empty());
            assert(orig.skip(0) =~= orig);
            assert(self.trades@ =~= orig.filter(pred));
        }
    }
}

/// Putting a protocol back in its slot with the same static data keeps
/// the registry well-formed and its pair count unchanged; with the pairs
/// bit-equal too, the registry state is unchanged.
pub proof fn lemma_registry_reinserted(reg0: PairRegistry, reg1: PairRegistry, pidx: int)
    requires
        reg0.wf(),
        reg1.custom_pairs@ == reg0.custom_pairs@,
        reg1.protocols@.len() == reg0.protocols@.len(),
        0 <= pidx < reg0.protocols@.len(),
        forall|i: int|
            0 <= i < reg0.protocols@.len() && i != pidx ==> reg1.protocols@[i] == reg0.protocols@[
                i
            ],
        reg1.protocols@[pidx].factory == reg0.protocols@[pidx].factory,
        reg1.protocols@[pidx].router == reg0.protocols@[pidx].router,
        reg1.protocols@[pidx].swap_fee == reg0.protocols@[pidx].swap_fee,
        reg1.protocols@[pidx].pairs@.len() == reg0.protocols@[pidx].pairs@.len(),
        forall|j: int|
            0 <= j < reg0.protocols@[pidx].pairs@.len() ==> {
                let q = #[trigger] reg1.protocols@[pidx].pairs@[j];
                let p = #[trigger] reg0.protocols@[pidx].pairs@[j];
                q.factory == p.factory && q.token0 == p.token0 && q.token1 == p.token1 && q.fee
                    == p.fee
            },
    ensures
        reg1.wf(),
        reg1.all_pairs().len() == reg0.all_pairs().len(),
        (forall|j: int|
            0 <= j < reg0.protocols@[pidx].pairs@.len() ==> #[trigger] reg1.protocols@[
                pidx
            ].pairs@[j] == reg0.protocols@[pidx].pairs@[j]) ==> same_registry_state(reg1, reg0),
{
    assert forall|i: int| 0 <= i < reg1.protocols@.len() implies (#[trigger] reg1.protocols@[
    i]).wf() by {
        if i == pidx {
            lemma_protocol_wf_static(reg0.protocols@[pidx], reg1.protocols@[pidx]);
        } else {
            assert(reg0.protocols@[i].wf());
        }
    }
    assert forall|a: int, b: int|
        0 <= a < b < reg1.protocols@.len() implies (#[trigger] reg1.protocols@[a]).factory != (
    #[trigger] reg1.protocols@[b]).factory by {
        assert(reg0.protocols@[a].factory != reg0.protocols@[b].factory);
    }
    assert(reg1.protocols@ =~= reg0.protocols@.update(pidx, reg1.protocols@[pidx]));
    lemma_protocols_pairs_update_len(reg0.protocols@, pidx, reg1.protocols@[pidx]);
    if forall|j: int|
        0 <= j < reg0.protocols@[pidx].pairs@.len() ==> #[trigger] reg1.protocols@[pidx].pairs@[j]
            == reg0.protocols@[pidx].pairs@[j] {
        assert(reg1.protocols@[pidx].pairs@ =~= reg0.protocols@[pidx].pairs@);
    }
}

/// The `k`-th fan-out amount: `k` tenths of the input budget.
pub open spec fn fan_amount(input: u128, k: int) -> int {
    (input / 10) * k
}

/// The reserve movements a validated swap implies, one leg per hop.
pub open spec fn trade_deltas_spec(t: Trade, amounts: Seq<u128>) -> Seq<PairDelta> {
    Seq::new(
        (t.spec_path().len() - 1) as nat,
        |i: int|
            PairDelta {
                token_in: t.spec_path()[i],
                token_out: t.spec_path()[i + 1],
                amount_in: amounts[i],
                amount_out: amounts[i + 1],
            },
    )
}

/// Whether the scoring pass scores the `i`-th pending swap: it is not yet
/// scored, it revalidates against current reserves, its factory is
/// registered, and each of its legs resolves to a pool of that protocol.
pub open spec fn swap_scored(pool: TxPool, i: int, now: u128) -> bool {
    let t = pool.trades@[i];
    let v = t.validity_spec(pool.registry, now);
    let pi = protocol_slot(pool.registry.protocols@, t.protocol);
    &&& !t.simulated
    &&& v is Ok
    &&& pi != -1
    &&& deltas_resolve(pool.registry.protocols@[pi].pairs@, trade_deltas_spec(t, v->Ok_0))
}

/// How many of the first `n` pending swaps the pass scores.
pub open spec fn scored_count_upto(pool: TxPool, now: u128, n: int) -> int
    decreases n,
{
    if n <= 0 {
        0
    } else {
        scored_count_upto(pool, now, n - 1) + if swap_scored(pool, n - 1, now) {
            1int
        } else {
            0int
        }
    }
}

/// Two protocol lists with the same factories slot for slot resolve every
/// factory to the same slot.
pub proof fn lemma_protocol_slot_same_factories(a: Seq<Protocol>, b: Seq<Protocol>, f: Address)
    requires
        a.len() == b.len(),
        forall|i: int| 0 <= i < a.len() ==> (#[trigger] a[i]).factory == b[i].factory,
    ensures
        protocol_slot(a, f) == protocol_slot(b, f),
    decreases a.len(),
{
    if a.len() > 0 {
        assert forall|i: int|
            0 <= i < a.drop_first().len() implies (#[trigger] a.drop_first()[i]).factory
            == b.drop_first()[i].factory by {
            assert(a.drop_first()[i] == a[i + 1]);
            assert(b.drop_first()[i] == b[i + 1]);
        }
        lemma_protocol_slot_same_factories(a.drop_first(), b.drop_first(), f);
    }
}

/// Lookup resolution reads only what equal-state registries share.
pub proof fn lemma_resolve_same_state(a: PairRegistry, b: PairRegistry, lk: PairLookup)
    requires
        same_registry_state(a, b),
    ensures
        resolve_lookup_spec(a, lk) == resolve_lookup_spec(b, lk),
{
    lemma_protocol_slot_same_factories(a.protocols@, b.protocols@, lk.factory_address);
    lemma_protocol_slot_bounds(a.protocols@, lk.factory_address);
    let pi = protocol_slot(a.protocols@, lk.factory_address);
    if pi != -1 {
        assert(a.protocols@[pi].pairs@ == b.protocols@[pi].pairs@);
    }
}

/// Forward path evaluation reads only what equal-state registries share.
pub proof fn lemma_amounts_out_same_state(
    a: PairRegistry,
    b: PairRegistry,
    tokens: Seq<Address>,
    lookups: Seq<PairLookup>,
    input: u128,
)
    requires
        same_registry_state(a, b),
    ensures
        crate::graph::amounts_out_spec(a, tokens, lookups, input) == crate::graph::amounts_out_spec(
            b,
            tokens,
            lookups,
            input,
        ),
    decreases lookups.len(),
{
    if lookups.len() > 0 {
        lemma_resolve_same_state(a, b, lookups[0]);
        match resolve_lookup_spec(a, lookups[0]) {
            Err(e) => {},
            Ok(pair) => match pair.amount_out_of(tokens[0], input as int) {
                Err(e) => {},
                Ok(next) => {
                    lemma_amounts_out_same_state(
                        a,
                        b,
                        tokens.drop_first(),
                        lookups.drop_first(),
                        next,
                    );
                },
            },
        }
    }
}

/// Backward path evaluation reads only what equal-state registries share.
pub proof fn lemma_amounts_in_same_state(
    a: PairRegistry,
    b: PairRegistry,
    tokens: Seq<Address>,
    lookups: Seq<PairLookup>,
    output: u128,
)
    requires
        same_registry_state(a, b),
    ensures
        crate::graph::amounts_in_spec(a, tokens, lookups, output) == crate::graph::amounts_in_spec(
            b,
            tokens,
            lookups,
            output,
        ),
    decreases lookups.len(),
{
    if lookups.len() > 0 {
        let n = lookups.len() as int;
        lemma_resolve_same_state(a, b, lookups[n - 1]);
        match resolve_lookup_spec(a, lookups[n - 1]) {
            Err(e) => {},
            Ok(pair) => match pair.amount_in_of(tokens[n - 1], output as int) {
                Err(e) => {},
                Ok(prev) => {
                    lemma_amounts_in_same_state(a, b, tokens, lookups.drop_last(), prev);
                },
            },
        }
    }
}

/// Revalidation reads only what equal-state registries share.
pub proof fn lemma_validity_same_state(t: Trade, a: PairRegistry, b: PairRegistry, now: u128)
    requires
        same_registry_state(a, b),
    ensures
        t.validity_spec(a, now) == t.validity_spec(b, now),
{
    if t.spec_deadline() >= now {
        let lookups = crate::graph::trade_lookups(t.spec_path(), t.protocol);
        match t.params {
            TradeParams::ExactInput(s) => {
                lemma_amounts_out_same_state(a, b, t.spec_path(), lookups, s.amount_in);
            },
            TradeParams::ExactOutput(s) => {
                lemma_amounts_in_same_state(a, b, t.spec_path(), lookups, s.amount_out);
            },
        }
    }
}

/// Score one fan-out of input amounts against the current (possibly
/// simulated) registry: for each tenth of the budget, search for the best
/// cycle and record it as a candidate carrying the pending swap's gas
/// profile. A search failure aborts the whole tick.
fn score_fanout(
    registry: &PairRegistry,
    input: u128,
    gas: Gas,
    traded: &Address,
    attempts: u8,
) -> (r: Result<Vec<PossibleArbitrage>, ArbitrageError>)
    requires
        registry.wf(),
        registry.all_pairs().len() <= 0x0fff_ffff,
        attempts >= 1,
    ensures
        match r {
            Ok(v) => v@.len() == FAN_OUT && forall|i: int|
                0 <= i < v@.len() ==> {
                    let a = #[trigger] v@[i];
                    &&& a.profit == sat_sub(a.output, a.input)
                    &&& a.gas_in_eth == estimate_gas_spec(a.gas, attempts)
                    &&& a.gas == gas
                    &&& a.input == fan_amount(input, i + 1)
                },
            Err(e) => e == ArbitrageError::NoPath || e == ArbitrageError::MathOverflow || e
                == ArbitrageError::MathUnderflow,
        },
        registry_price_safe(*registry) && input <= crate::search::PRICE_CAP
            && registry_holds_token(*registry, *traded) ==> r is Ok,
{
    let tenth = input / 10;
    let mut out: Vec<PossibleArbitrage> = Vec::new();
    let mut k: usize = 1;
    while k <= FAN_OUT
        invariant
            registry.wf(),
            registry.all_pairs().len() <= 0x0fff_ffff,
            attempts >= 1,
            tenth == input / 10,
            1 <= k <= FAN_OUT + 1,
            out@.len() == k - 1,
            forall|i: int|
                0 <= i < out@.len() ==> {
                    let a = #[trigger] out@[i];
                    &&& a.profit == sat_sub(a.output, a.input)
                    &&& a.gas_in_eth == estimate_gas_spec(a.gas, attempts)
                    &&& a.gas == gas
                    &&& a.input == fan_amount(input, i + 1)
                },
        decreases FAN_OUT + 1 - k,
    {
        proof {
            vstd::arithmetic::div_mod::lemma_fundamental_div_mod(input as int, 10);
            vstd::arithmetic::div_mod::lemma_mod_bound(input as int, 10);
            vstd::arithmetic::mul::lemma_mul_inequality(k as int, 10, tenth as int);
            vstd::arithmetic::mul::lemma_mul_is_commutative(tenth as int, k as int);
            assert((tenth as int) * (k as int) <= input as int);
        }
        let amount = tenth * (k as u128);
        match find_best_trade(registry, amount, traded) {
            Ok((path, output)) => {
                out.push(PossibleArbitrage::new(path, gas, output, amount, attempts));
            },
            Err(e) => {
                proof {
                    if registry_price_safe(*registry) && input <= crate::search::PRICE_CAP
                        && registry_holds_token(*registry, *traded) {
                        assert(false);
                    }
                }
                return Err(e);
            },
        }
        k = k + 1;
    }
    Ok(out)
}

impl TxPool {
    /// One scoring pass. A pending swap is scored exactly when
    /// [`swap_scored`] holds of it against the pre-tick state: it is
    /// unscored, revalidates, and its legs resolve in its registered
    /// protocol. Each scored swap's reserve deltas are simulated on its
    /// protocol, one fan-out of candidates is searched against the
    /// simulated reserves, and the reserves are rolled back exactly; a
    /// skipped swap contributes nothing. On success the scored swaps, and
    /// only they, come back marked, and the candidate list holds one
    /// fan-out block per scored swap, each candidate riding some scored
    /// swap's gas profile at some fan-out amount. Whatever happens, the
    /// registry's reserves after the call are bit-equal to the reserves
    /// before it.
    pub fn get_arbitrages(&mut self, input: u128, now: u128, attempts: u8) -> (r: Result<
        Vec<PossibleArbitrage>,
        ArbitrageError,
    >)
        requires
            old(self).wf(),
            attempts >= 1,
        ensures
            final(self).wf(),
            final(self).traded == old(self).traded,
            same_registry_state(final(self).registry, old(self).registry),
            final(self).trades@.len() == old(self).trades@.len(),
            forall|i: int|
                0 <= i < final(self).trades@.len() ==> trade_core_eq(
                    #[trigger] final(self).trades@[i],
                    old(self).trades@[i],
                ),
            match r {
                Ok(v) => {
                    &&& v@.len() == FAN_OUT * scored_count_upto(
                        *old(self),
                        now,
                        old(self).trades@.len() as int,
                    )
                    &&& forall|i: int|
                        0 <= i < v@.len() ==> {
                            let a = #[trigger] v@[i];
                            &&& a.profit == sat_sub(a.output, a.input)
                            &&& a.gas_in_eth == estimate_gas_spec(a.gas, attempts)
                            &&& exists|t: int|
                                #![trigger swap_scored(*old(self), t, now)]
                                0 <= t < old(self).trades@.len() && swap_scored(*old(self), t, now)
                                    && a.gas == old(self).trades@[t].gas
                            &&& exists|k: int|
                                #![trigger fan_amount(input, k)]
                                1 <= k <= FAN_OUT && a.input == fan_amount(input, k)
                        }
                    &&& forall|i: int|
                        0 <= i < final(self).trades@.len() ==> {
                            let fi = #[trigger] final(self).trades@[i];
                            fi.simulated == (old(self).trades@[i].simulated || swap_scored(
                                *old(self),
                                i,
                                now,
                            ))
                        }
                },
                Err(e) => e == ArbitrageError::NoPath || e == ArbitrageError::MathOverflow || e
                    == ArbitrageError::MathUnderflow,
            },
    {
        let n = self.trades.len();
        let mut out: Vec<PossibleArbitrage> = Vec::new();
        let mut ti: usize = 0;
        while ti < n
            invariant
                self.wf(),
                n == self.trades@.len(),
                n == old(self).trades@.len(),
                ti <= n,
                attempts >= 1,
                self.traded == old(self).traded,
                same_registry_state(self.registry, old(self).registry),
                forall|i: int|
                    0 <= i < n ==> trade_core_eq(#[trigger] self.trades@[i], old(self).trades@[i]),
                forall|i: int| ti <= i < n ==> #[trigger] self.trades@[i] == old(self).trades@[i],
                forall|i: int|
                    0 <= i < ti ==> (#[trigger] self.trades@[i]).simulated == (old(
                        self,
                    ).trades@[i].simulated || swap_scored(*old(self), i, now)),
                out@.len() == FAN_OUT * scored_count_upto(*old(self), now, ti as int),
                forall|i: int|
                    0 <= i < out@.len() ==> {
                        let a = #[trigger] out@[i];
                        &&& a.profit == sat_sub(a.output, a.input)
                        &&& a.gas_in_eth == estimate_gas_spec(a.gas, attempts)
                        &&& exists|t: int|
                            #![trigger swap_scored(*old(self), t, now)]
                            0 <= t < n && swap_scored(*old(self), t, now) && a.gas == old(
                                self,
                            ).trades@[t].gas
                        &&& exists|k: int|
                            #![trigger fan_amount(input, k)]
                            1 <= k <= FAN_OUT && a.input == fan_amount(input, k)
                    },
            decreases n - ti,
        {
            let ghost t_old = old(self).trades@[ti as int];
            proof {
                assert(self.trades@[ti as int] == t_old);
                lemma_validity_same_state(t_old, self.registry, old(self).registry, now);
                assert forall|i: int|
                    0 <= i < self.registry.protocols@.len() implies (
                #[trigger] self.registry.protocols@[i]).factory == old(
                    self,
                ).registry.protocols@[i].factory by {}
                lemma_protocol_slot_same_factories(
                    self.registry.protocols@,
                    old(self).registry.protocols@,
                    t_old.protocol,
                );
            }
            if self.trades[ti].simulated {
                proof {
                    assert(!swap_scored(*old(self), ti as int, now));
                }
                ti = ti + 1;
                continue ;
            }
            let amounts = match self.trades[ti].check_trade_validity(&self.registry, now) {
                Ok(a) => a,
                Err(e) => {
                    proof {
                        assert(t_old.validity_spec(old(self).registry, now) is Err);
                        assert(!swap_scored(*old(self), ti as int, now));
                    }
                    ti = ti + 1;
                    continue ;
                },
            };
            proof {
                assert(t_old.validity_spec(old(self).registry, now) == Ok::<
                    Seq<u128>,
                    ArbitrageError,
                >(amounts@));
            }
            let deltas = self.trades[ti].deltas_of(&amounts);
            proof {
                assert(deltas@ =~= trade_deltas_spec(t_old, amounts@));
            }
            let factory = self.trades[ti].protocol;
            let gas = self.trades[ti].gas;
            let pidx = match self.registry.find_protocol(&factory) {
                Some(pidx) => pidx,
                None => {
                    proof {
                        assert(protocol_slot(old(self).registry.protocols@, t_old.protocol)
                            == -1);
                        assert(!swap_scored(*old(self), ti as int, now));
                    }
                    ti = ti + 1;
                    continue ;
                },
            };
            proof {
                assert(protocol_slot(old(self).registry.protocols@, t_old.protocol)
                    == pidx as int);
                assert(self.registry.protocols@[pidx as int].pairs@ == old(
                    self,
                ).registry.protocols@[pidx as int].pairs@);
            }
            let ghost reg0 = self.registry;
            let mut prot = self.registry.protocols.remove(pidx);
            let ghost prot0_pairs = prot.pairs@;
            let pairs_len = prot.pairs.len();
            proof {
                assert(prot0_pairs.len() == pairs_len as int);
            }
            let snaps = match prot.simulate(&deltas) {
                Ok(s) => s,
                Err(e) => {
                    proof {
                        assert(!deltas_resolve(
                            old(self).registry.protocols@[pidx as int].pairs@,
                            trade_deltas_spec(t_old, amounts@),
                        ));
                        assert(!swap_scored(*old(self), ti as int, now));
                    }
                    self.registry.protocols.insert(pidx, prot);
                    proof {
                        assert(self.registry.protocols@ =~= reg0.protocols@.update(
                            pidx as int,
                            self.registry.protocols@[pidx as int],
                        ));
                        lemma_registry_reinserted(reg0, self.registry, pidx as int);
                        assert(same_registry_state(self.registry, old(self).registry));
                    }
                    ti = ti + 1;
                    continue ;
                },
            };
            proof {
                assert(swap_scored(*old(self), ti as int, now));
            }
            self.registry.protocols.insert(pidx, prot);
            proof {
                assert(self.registry.protocols@ =~= reg0.protocols@.update(
                    pidx as int,
                    self.registry.protocols@[pidx as int],
                ));
                lemma_sim_all_static(prot0_pairs, deltas@);
                lemma_registry_reinserted(reg0, self.registry, pidx as int);
            }
            let scored = score_fanout(&self.registry, input, gas, &self.traded, attempts);
            let mut prot = self.registry.protocols.remove(pidx);
            prot.unsimulate(&snaps);
            proof {
                lemma_unsimulate_reverts(prot0_pairs, deltas@);
            }
            self.registry.protocols.insert(pidx, prot);
            proof {
                assert(self.registry.protocols@ =~= reg0.protocols@.update(
                    pidx as int,
                    self.registry.protocols@[pidx as int],
                ));
                assert(self.registry.protocols@[pidx as int].pairs@ == prot0_pairs);
                lemma_registry_reinserted(reg0, self.registry, pidx as int);
                assert(same_registry_state(self.registry, old(self).registry));
            }
            let mut scored_vec = match scored {
                Ok(v) => v,
                Err(e) => {
                    return Err(e);
                },
            };
            let ghost out0_len = out@.len();
            proof {
                assert forall|i: int|
                    0 <= i < scored_vec@.len() implies {
                    let a = #[trigger] scored_vec@[i];
                    exists|k: int|
                        #![trigger fan_amount(input, k)]
                        1 <= k <= FAN_OUT && a.input == fan_amount(input, k)
                } by {
                    assert(scored_vec@[i].input == fan_amount(input, i + 1));
                }
            }
            while scored_vec.len() > 0
                invariant
                    attempts >= 1,
                    n == old(self).trades@.len(),
                    0 <= ti < n,
                    gas == old(self).trades@[ti as int].gas,
                    swap_scored(*old(self), ti as int, now),
                    out@.len() + scored_vec@.len() == out0_len + FAN_OUT,
                    forall|i: int|
                        0 <= i < scored_vec@.len() ==> {
                            let a = #[trigger] scored_vec@[i];
                            &&& a.profit == sat_sub(a.output, a.input)
                            &&& a.gas_in_eth == estimate_gas_spec(a.gas, attempts)
                            &&& a.gas == gas
                            &&& exists|k: int|
                                #![trigger fan_amount(input, k)]
                                1 <= k <= FAN_OUT && a.input == fan_amount(input, k)
                        },
                    forall|i: int|
                        0 <= i < out@.len() ==> {
                            let a = #[trigger] out@[i];
                            &&& a.profit == sat_sub(a.output, a.input)
                            &&& a.gas_in_eth == estimate_gas_spec(a.gas, attempts)
                            &&& exists|t: int|
                                #![trigger swap_scored(*old(self), t, now)]
                                0 <= t < n && swap_scored(*old(self), t, now) && a.gas == old(
                                    self,
                                ).trades@[t].gas
                            &&& exists|k: int|
                                #![trigger fan_amount(input, k)]
                                1 <= k <= FAN_OUT && a.input == fan_amount(input, k)
                        },
                decreases scored_vec@.len(),
            {
                let ghost prev = scored_vec@;
                let a = scored_vec.remove(0);
                proof {
                    assert(scored_vec@ =~= prev.drop_first());
                    assert forall|i: int|
                        0 <= i < scored_vec@.len() implies #[trigger] scored_vec@[i] == prev[i
                        + 1] by {}
                }
                out.push(a);
            }
            let ghost before_flag = self.trades@;
            let t = self.trades.remove(ti);
            self.trades.insert(ti, Trade { simulated: true, ..t });
            proof {
                assert(self.trades@ =~= before_flag.update(
                    ti as int,
                    Trade { simulated: true, ..before_flag[ti as int] },
                ));
                assert forall|a: int, b: int|
                    0 <= a < b < self.trades@.len() implies (#[trigger] self.trades@[a]).tx_hash
                    != (#[trigger] self.trades@[b]).tx_hash by {
                    assert(before_flag[a].tx_hash != before_flag[b].tx_hash);
                }
            }
            ti = ti + 1;
        }
        proof {
            assert(ti == n);
        }
        Ok(out)
    }
}

/// The best candidate net of gas, if any is profitable at all: the engine
/// never emits an opportunity whose profit does not strictly exceed its
/// gas allowance, and whatever it emits is one of the given candidates.
pub fn get_profitable_arbitrage(arbitrages: Vec<PossibleArbitrage>) -> (r: Option<
    PossibleArbitrage,
>)
    ensures
        match r {
            Some(a) => sat_sub(a.profit, a.gas_in_eth) > 0 && (exists|i: int|
                0 <= i < arbitrages@.len() && #[trigger] arbitrages@[i] == a) && forall|i: int|
                0 <= i < arbitrages@.len() ==> sat_sub(
                    (#[trigger] arbitrages@[i]).profit,
                    arbitrages@[i].gas_in_eth,
                ) <= sat_sub(a.profit, a.gas_in_eth),
            None => forall|i: int|
                0 <= i < arbitrages@.len() ==> sat_sub(
                    (#[trigger] arbitrages@[i]).profit,
                    arbitrages@[i].gas_in_eth,
                ) == 0,
        },
{
    let mut arbs = arbitrages;
    let n = arbs.len();
    if n == 0 {
        return None;
    }
    let mut best_i: usize = 0;
    let mut best_net: u128 = net_of(&arbs, 0);
    let mut i: usize = 1;
    while i < n
        invariant
            n == arbs@.len(),
            arbs@ == arbitrages@,
            best_i < n,
            1 <= i <= n,
            best_net == spec_net(arbs@[best_i as int]),
            forall|k: int| 0 <= k < i ==> spec_net(#[trigger] arbs@[k]) <= best_net,
        decreases n - i,
    {
        let net = net_of(&arbs, i);
        if net > best_net {
            best_net = net;
            best_i = i;
        }
        i = i + 1;
    }
    if best_net > 0 {
        let a = arbs.remove(best_i);
        proof {
            assert(arbitrages@[best_i as int] == a);
        }
        Some(a)
    } else {
        None
    }
}

/// An opportunity's profit net of gas, floored at zero.
pub open spec fn spec_net(a: PossibleArbitrage) -> u128 {
    sat_sub(a.profit, a.gas_in_eth)
}

/// Read one candidate's net profit.
fn net_of(arbitrages: &Vec<PossibleArbitrage>, i: usize) -> (r: u128)
    requires
        i < arbitrages@.len(),
    ensures
        r == spec_net(arbitrages@[i as int]),
{
    let profit = arbitrages[i].profit;
    let gas_in_eth = arbitrages[i].gas_in_eth;
    if profit < gas_in_eth {
        0
    } else {
        profit - gas_in_eth
    }
}

/// Merging one trade: a known hash replaces its record, a new hash is
/// appended.
pub open spec fn merge_step(trades: Seq<Trade>, t: Trade) -> Seq<Trade> {
    let i = hash_slot(trades, t.tx_hash);
    if i == -1 {
        trades.push(t)
    } else {
        trades.update(i, t)
    }
}

/// Merging a batch of trades, first to last.
pub open spec fn merge_all(trades: Seq<Trade>, news: Seq<Trade>) -> Seq<Trade>
    decreases news.len(),
{
    if news.len() == 0 {
        trades
    } else {
        merge_all(merge_step(trades, news[0]), news.drop_first())
    }
}

/// Merging one more trade at the end merges it into the folded state.
pub proof fn lemma_merge_all_snoc(trades: Seq<Trade>, news: Seq<Trade>, t: Trade)
    ensures
        merge_all(trades, news.push(t)) == merge_step(merge_all(trades, news), t),
    decreases news.len(),
{
    if news.len() == 0 {
        assert(news.push(t)[0] == t);
        assert(news.push(t).drop_first() =~= Seq::<Trade>::empty());
        assert(merge_all(merge_step(trades, t), Seq::<Trade>::empty()) == merge_step(trades, t));
    } else {
        assert(news.push(t)[0] == news[0]);
        assert(news.push(t).drop_first() =~= news.drop_first().push(t));
        lemma_merge_all_snoc(merge_step(trades, news[0]), news.drop_first(), t);
        assert(merge_all(trades, news.push(t)) == merge_all(
            merge_step(trades, news[0]),
            news.drop_first().push(t),
        ));
    }
}

/// If nothing before `i` matches and slot `i` does, `hash_slot` is `i`.
pub proof fn lemma_hash_slot_found(trades: Seq<Trade>, h: (u128, u128), i: int)
    requires
        0 <= i < trades.len(),
        forall|k: int| 0 <= k < i ==> (#[trigger] trades[k]).tx_hash != h,
        trades[i].tx_hash == h,
    ensures
        hash_slot(trades, h) == i,
    decreases trades.len(),
{
    if i > 0 {
        assert(trades.drop_first()[i - 1] == trades[i]);
        assert forall|k: int| 0 <= k < i - 1 implies (#[trigger] trades.drop_first()[k]).tx_hash
            != h by {
            assert(trades.drop_first()[k] == trades[k + 1]);
        }
        lemma_hash_slot_found(trades.drop_first(), h, i - 1);
    }
}

/// If no slot matches, `hash_slot` is `-1`.
pub proof fn lemma_hash_slot_missing(trades: Seq<Trade>, h: (u128, u128))
    requires
        forall|k: int| 0 <= k < trades.len() ==> (#[trigger] trades[k]).tx_hash != h,
    ensures
        hash_slot(trades, h) == -1,
    decreases trades.len(),
{
    if trades.len() > 0 {
        assert forall|k: int|
            0 <= k < trades.drop_first().len() implies (#[trigger] trades.drop_first()[
        k]).tx_hash != h by {
            assert(trades.drop_first()[k] == trades[k + 1]);
        }
        lemma_hash_slot_missing(trades.drop_first(), h);
    }
}

/// An unresolved hash matches no slot at all.
pub proof fn lemma_hash_slot_absent(trades: Seq<Trade>, h: (u128, u128))
    requires
        hash_slot(trades, h) == -1,
    ensures
        forall|k: int| 0 <= k < trades.len() ==> (#[trigger] trades[k]).tx_hash != h,
    decreases trades.len(),
{
    if trades.len() > 0 {
        assert(trades[0].tx_hash != h);
        lemma_hash_slot_bounds(trades.drop_first(), h);
        assert(hash_slot(trades.drop_first(), h) == -1);
        lemma_hash_slot_absent(trades.drop_first(), h);
        assert forall|k: int| 0 <= k < trades.len() implies (#[trigger] trades[k]).tx_hash
            != h by {
            if k > 0 {
                assert(trades.drop_first()[k - 1] == trades[k]);
            }
        }
    }
}

/// A resolved slot is in bounds and holds the hash; `-1` otherwise.
pub proof fn lemma_hash_slot_bounds(trades: Seq<Trade>, h: (u128, u128))
    ensures
        hash_slot(trades, h) == -1 || (0 <= hash_slot(trades, h) < trades.len()
            && trades[hash_slot(trades, h)].tx_hash == h),
    decreases trades.len(),
{
    if trades.len() > 0 {
        lemma_hash_slot_bounds(trades.drop_first(), h);
    }
}

/// Whether the hash occurs in the list.
fn hash_in_list(list: &Vec<(u128, u128)>, h: (u128, u128)) -> (r: bool)
    ensures
        r == list@.contains(h),
{
    let mut i: usize = 0;
    while i < list.len()
        invariant
            i <= list@.len(),
            forall|k: int| 0 <= k < i ==> list@[k] != h,
        decreases list@.len() - i,
    {
        if list[i].0 == h.0 && list[i].1 == h.1 {
            return true;
        }
        i = i + 1;
    }
    false
}

} // verus!

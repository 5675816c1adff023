//! One liquidity pool: token addresses, reserves, fee, owning factory.

use vstd::prelude::*;
use crate::address::Address;
use crate::math;
use crate::math::{amount_out_spec, amount_in_spec};

verus! {

/// Everything that can go wrong inside the decision engine.
#[derive(PartialEq, Eq, Structural, Clone, Copy, Debug)]
pub enum ArbitrageError {
    /// A pool side is empty, or a pool cannot deliver the requested output.
    NoLiquidity,
    /// An intermediate product exceeds 128 bits.
    MathOverflow,
    /// The fee exceeds the fee base, or a checked sum does not fit.
    MathUnderflow,
    /// A quote's denominator is zero.
    DivideByZero,
    /// The named token is neither side of the pair.
    TokenNotInPair,
    /// A pair lookup does not resolve in its protocol.
    PairMissing,
    /// A factory address does not resolve to a protocol.
    ProtocolMissing,
    /// Decoded call data does not have the expected shape.
    AbiTypeMismatch,
    /// The graph has no node for the traded token, so there is nothing to
    /// search.
    NoPath,
    /// A pending swap's deadline is already past.
    DeadlineExpired,
    /// A pending swap's own bound fails against current reserves.
    BoundViolated,
}

/// One pool of a constant-product AMM.
#[derive(PartialEq, Eq, Structural, Clone, Copy, Debug)]
pub struct Pair {
    /// The pool's own contract address.
    pub address: Address,
    /// The factory (protocol) the pool belongs to.
    pub factory: Address,
    /// The lower-ordered token.
    pub token0: Address,
    /// The higher-ordered token.
    pub token1: Address,
    /// Reserve of `token0`.
    pub reserve0: u128,
    /// Reserve of `token1`.
    pub reserve1: u128,
    /// Swap fee out of [`math::FEE_BASE`].
    pub fee: u32,
}

impl Pair {
    /// Structural invariant: the tokens are two distinct addresses in
    /// ascending order and the fee is below the base.
    pub open spec fn wf(self) -> bool {
        self.token0.spec_lt(self.token1) && self.fee < 10000
    }

    /// The exact-in quote this pair gives for `amount_in` of `input`, as a
    /// specification: reserves are read in pool order when the input is
    /// `token0` and swapped when it is `token1`.
    pub open spec fn amount_out_of(self, input: Address, amount_in: int) -> Result<
        u128,
        ArbitrageError,
    > {
        if input == self.token0 {
            amount_out_spec(self.reserve0 as int, self.reserve1 as int, amount_in, self.fee as int)
        } else if input == self.token1 {
            amount_out_spec(self.reserve1 as int, self.reserve0 as int, amount_in, self.fee as int)
        } else {
            Err(ArbitrageError::TokenNotInPair)
        }
    }

    /// The exact-out quote, symmetric to [`Self::amount_out_of`].
    pub open spec fn amount_in_of(self, input: Address, amount_out: int) -> Result<
        u128,
        ArbitrageError,
    > {
        if input == self.token0 {
            amount_in_spec(self.reserve0 as int, self.reserve1 as int, amount_out, self.fee as int)
        } else if input == self.token1 {
            amount_in_spec(self.reserve1 as int, self.reserve0 as int, amount_out, self.fee as int)
        } else {
            Err(ArbitrageError::TokenNotInPair)
        }
    }

    /// The search weight of this pair for `amount_in` of `input`: the
    /// exact-in quote, with `NoLiquidity` softened to a zero weight and any
    /// other error kept.
    pub open spec fn weight_of(self, input: Address, amount_in: int) -> Result<
        u128,
        ArbitrageError,
    > {
        match self.amount_out_of(input, amount_in) {
            Ok(v) => Ok(v),
            Err(ArbitrageError::NoLiquidity) => Ok(0),
            Err(e) => Err(e),
        }
    }

    /// A new pair with empty reserves.
    pub fn new(address: Address, factory: Address, token0: Address, token1: Address, fee: u32) -> (r:
        Pair)
        ensures
            r == (Pair { address, factory, token0, token1, reserve0: 0, reserve1: 0, fee }),
    {
        Pair { address, factory, token0, token1, reserve0: 0, reserve1: 0, fee }
    }

    /// A pair with known reserves, as configured custom pools carry them.
    pub fn from_parts(
        address: Address,
        factory: Address,
        token0: Address,
        token1: Address,
        reserve0: u128,
        reserve1: u128,
        fee: u32,
    ) -> (r: Pair)
        ensures
            r == (Pair { address, factory, token0, token1, reserve0, reserve1, fee }),
    {
        Pair { address, factory, token0, token1, reserve0, reserve1, fee }
    }

    /// Whether `token` is one of the two sides.
    pub fn contains(&self, token: &Address) -> (r: bool)
        ensures
            r == (*token == self.token0 || *token == self.token1),
    {
        *token == self.token0 || *token == self.token1
    }

    /// Both tokens, in pool order.
    pub fn get_tokens(&self) -> (r: (Address, Address))
        ensures
            r.0 == self.token0,
            r.1 == self.token1,
    {
        (self.token0, self.token1)
    }

    /// Exact-in quote for `amount_in` of `input`.
    pub fn get_amount_out(&self, input: Address, amount_in: u128) -> (r: Result<
        u128,
        ArbitrageError,
    >)
        ensures
            r == self.amount_out_of(input, amount_in as int),
    {
        if input == self.token0 {
            math::get_amount_out(self.reserve0, self.reserve1, amount_in, self.fee)
        } else if input == self.token1 {
            math::get_amount_out(self.reserve1, self.reserve0, amount_in, self.fee)
        } else {
            Err(ArbitrageError::TokenNotInPair)
        }
    }

    /// Exact-out quote for `amount_out` of the token opposite `input`.
    pub fn get_amount_in(&self, input: Address, amount_out: u128) -> (r: Result<
        u128,
        ArbitrageError,
    >)
        ensures
            r == self.amount_in_of(input, amount_out as int),
    {
        if input == self.token0 {
            math::get_amount_in(self.reserve0, self.reserve1, amount_out, self.fee)
        } else if input == self.token1 {
            math::get_amount_in(self.reserve1, self.reserve0, amount_out, self.fee)
        } else {
            Err(ArbitrageError::TokenNotInPair)
        }
    }

    /// Search weight: the exact-in quote, or `0` for a pool with no
    /// liquidity on the relevant side. Any other quoting error is returned,
    /// not swallowed: the caller's whole search fails on it.
    pub fn calculate_weight(&self, input: Address, amount_in: u128) -> (r: Result<
        u128,
        ArbitrageError,
    >)
        ensures
            r == self.weight_of(input, amount_in as int),
    {
        match self.get_amount_out(input, amount_in) {
            Ok(weight) => Ok(weight),
            Err(error) => match error {
                ArbitrageError::NoLiquidity => Ok(0),
                _ => Err(error),
            },
        }
    }
}

} // verus!

//! Pricing math and pair quoting behaviour.

use arb_engine::address::Address;
use arb_engine::math::{get_amount_in, get_amount_out};
use arb_engine::pair::{ArbitrageError, Pair};

fn addr(n: u128) -> Address {
    Address::new(0, n)
}

#[test]
fn amount_out_balanced_pool_exact_value() {
    // (100 * 9970 * 1000) / (1000 * 10000 + 100 * 9970) = 90
    assert_eq!(get_amount_out(1000, 1000, 100, 30), Ok(90));
}

#[test]
fn amount_out_zero_input_is_zero() {
    assert_eq!(get_amount_out(1000, 1000, 0, 30), Ok(0));
    assert_eq!(get_amount_out(5, 1_000_000, 0, 0), Ok(0));
}

#[test]
fn amount_in_zero_output_is_one() {
    assert_eq!(get_amount_in(1000, 1000, 0, 30), Ok(1));
    assert_eq!(get_amount_in(7, 9, 0, 9999), Ok(1));
}

#[test]
fn amount_in_balanced_pool_exact_value() {
    // (1000 * 90 * 10000) / (910 * 9970) + 1 = 99 + 1 = 100
    assert_eq!(get_amount_in(1000, 1000, 90, 30), Ok(100));
}

#[test]
fn round_trip_recovers_input_where_quote_increases() {
    // 90 = amount_out(1000,1000,100,30); quoting the input for 90 demands 100.
    let out = get_amount_out(1000, 1000, 100, 30).unwrap();
    let back = get_amount_in(1000, 1000, out, 30).unwrap();
    assert!(back >= 100);
}

#[test]
fn round_trip_can_undercut_on_quote_plateaus() {
    // On a plateau of the truncated quote a smaller input buys the same
    // output, so the reverse quote is below the original input.
    let out = get_amount_out(1000, 1000, 500, 30).unwrap();
    assert_eq!(out, 332);
    let back = get_amount_in(1000, 1000, out, 30).unwrap();
    assert_eq!(back, 499);
    assert_eq!(get_amount_out(1000, 1000, back, 30).unwrap(), out);
}

#[test]
fn amount_out_monotone_in_input() {
    let mut last = 0u128;
    for x in 0..400u128 {
        let out = get_amount_out(1000, 700, x, 25).unwrap();
        assert!(out >= last);
        last = out;
    }
}

#[test]
fn amount_out_error_cases() {
    assert_eq!(get_amount_out(0, 1000, 10, 30), Err(ArbitrageError::NoLiquidity));
    assert_eq!(get_amount_out(1000, 0, 10, 30), Err(ArbitrageError::NoLiquidity));
    assert_eq!(get_amount_out(1000, 1000, 10, 10001), Err(ArbitrageError::MathUnderflow));
    assert_eq!(get_amount_out(1000, 1000, u128::MAX, 0), Err(ArbitrageError::MathOverflow));
}

#[test]
fn amount_in_error_cases() {
    assert_eq!(get_amount_in(0, 1000, 10, 30), Err(ArbitrageError::NoLiquidity));
    // the pool cannot deliver its whole reserve or more
    assert_eq!(get_amount_in(1000, 1000, 1000, 30), Err(ArbitrageError::NoLiquidity));
    assert_eq!(get_amount_in(1000, 1000, 1001, 30), Err(ArbitrageError::NoLiquidity));
    assert_eq!(get_amount_in(1000, 1000, 10, 10001), Err(ArbitrageError::MathUnderflow));
    // a fee eating the whole trade divides by zero
    assert_eq!(get_amount_in(1000, 1000, 10, 10000), Err(ArbitrageError::DivideByZero));
}

#[test]
fn pair_quotes_follow_token_order() {
    let pair = Pair::from_parts(addr(9), addr(100), addr(1), addr(2), 1000, 2000, 30);
    // input token0: reserves read as stored
    assert_eq!(pair.get_amount_out(addr(1), 100), get_amount_out(1000, 2000, 100, 30));
    // input token1: reserves swapped
    assert_eq!(pair.get_amount_out(addr(2), 100), get_amount_out(2000, 1000, 100, 30));
    assert_eq!(pair.get_amount_in(addr(1), 100), get_amount_in(1000, 2000, 100, 30));
    assert_eq!(pair.get_amount_in(addr(2), 100), get_amount_in(2000, 1000, 100, 30));
    assert_eq!(pair.get_amount_out(addr(3), 100), Err(ArbitrageError::TokenNotInPair));
    assert_eq!(pair.get_amount_in(addr(3), 100), Err(ArbitrageError::TokenNotInPair));
}

#[test]
fn weight_softens_no_liquidity_only() {
    let empty = Pair::from_parts(addr(9), addr(100), addr(1), addr(2), 0, 0, 30);
    assert_eq!(empty.calculate_weight(addr(1), 100), Ok(0));
    let bad_fee = Pair::from_parts(addr(9), addr(100), addr(1), addr(2), 10, 10, 10001);
    assert_eq!(bad_fee.calculate_weight(addr(1), 100), Err(ArbitrageError::MathUnderflow));
    let fine = Pair::from_parts(addr(9), addr(100), addr(1), addr(2), 1000, 1000, 30);
    assert_eq!(fine.calculate_weight(addr(1), 100), Ok(90));
}

#[test]
fn pair_contains_and_tokens() {
    let pair = Pair::new(addr(9), addr(100), addr(1), addr(2), 30);
    assert!(pair.contains(&addr(1)));
    assert!(pair.contains(&addr(2)));
    assert!(!pair.contains(&addr(3)));
    assert_eq!(pair.get_tokens(), (addr(1), addr(2)));
    assert_eq!(pair.reserve0, 0);
    assert_eq!(pair.reserve1, 0);
}

#[test]
fn address_ordering_and_zero() {
    let a = Address::new(0, 5);
    let b = Address::new(0, 9);
    let c = Address::new(1, 0);
    assert!(a.lt(&b));
    assert!(b.lt(&c));
    assert!(!c.lt(&a));
    assert!(Address::zero().is_zero());
    assert!(!a.is_zero());
    let (lo, hi) = arb_engine::address::sort_address_pair(b, a);
    assert_eq!((lo, hi), (a, b));
}

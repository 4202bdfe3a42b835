//! Monetary values in zatoshis, as the Sprout encoding carries them.
//!
//! Values are held as plain `i64` amounts; the arithmetic that checks the
//! monetary range is the one of `zcash_protocol::value::ZatBalance`, called
//! through the wrappers below.

use vstd::bytes::*;
use vstd::prelude::*;
use zcash_protocol::value::ZatBalance;

verus! {

/// The number of zatoshis in one ZEC.
pub const COIN: u64 = 100_000_000;

/// The total supply of zatoshis: 21,000,000 ZEC.
pub const MAX_MONEY: u64 = 2_100_000_000_000_000;

/// `MAX_MONEY` as a signed amount: the bound of a balance in either direction.
pub const MAX_BALANCE: i64 = 2_100_000_000_000_000;

/// An amount of zatoshis that a balance may hold: `-MAX_MONEY..=MAX_MONEY`.
pub open spec fn is_balance(v: int) -> bool {
    -(MAX_MONEY as int) <= v && v <= MAX_MONEY as int
}

/// A non-negative amount of zatoshis: `0..=MAX_MONEY`.
pub open spec fn is_money(v: int) -> bool {
    0 <= v && v <= MAX_MONEY as int
}

/// The eight bytes of `v` in signed 64-bit little-endian form.
pub open spec fn i64_le_bytes(v: i64) -> Seq<u8> {
    spec_u64_to_le_bytes(v as u64)
}

/// The unsigned 64-bit little-endian integer that eight bytes hold.
pub open spec fn u64_le_value(bytes: Seq<u8>) -> u64 {
    spec_u64_from_le_bytes(bytes)
}

/// The amount that `ZatBalance::from_u64_le_bytes` reads from eight bytes, if it
/// is a non-negative amount of money.
pub open spec fn money_from_le_bytes(bytes: Seq<u8>) -> Option<i64> {
    if u64_le_value(bytes) <= MAX_MONEY {
        Some(u64_le_value(bytes) as i64)
    } else {
        None
    }
}

/// The result of adding or subtracting two balances: `Some` exactly when the
/// exact result is itself a balance.
pub open spec fn checked_balance(v: int) -> Option<i64> {
    if is_balance(v) {
        Some(v as i64)
    } else {
        None
    }
}

/// Reads a non-negative amount from unsigned 64-bit little-endian bytes.
///
/// Calls `ZatBalance::from_u64_le_bytes`, which decodes the bytes with
/// `u64::from_le_bytes` and accepts the amount exactly when it is at most
/// `MAX_MONEY`; the amount comes back as an `i64`.
#[verifier::external_body]
pub(crate) fn balance_from_u64_le_bytes(bytes: [u8; 8]) -> (r: Option<i64>)
    ensures
        r == money_from_le_bytes(bytes@),
{
    ZatBalance::from_u64_le_bytes(bytes).ok().map(i64::from)
}

/// Encodes a balance as signed 64-bit little-endian bytes.
///
/// Calls `ZatBalance::to_i64_le_bytes`, which returns `i64::to_le_bytes` of the
/// amount; the amount is brought in with `ZatBalance::const_from_i64`, which
/// panics outside the balance range, and so `requires` keeps to that range.
#[verifier::external_body]
pub(crate) fn balance_to_i64_le_bytes(v: i64) -> (r: [u8; 8])
    requires
        is_balance(v as int),
    ensures
        r@ == i64_le_bytes(v),
{
    ZatBalance::const_from_i64(v).to_i64_le_bytes()
}

/// Subtracts one balance from another.
///
/// Calls `Sub` of `ZatBalance`, which returns `ZatBalance::from_i64(a - b).ok()`:
/// the difference when it lies in the balance range, and `None` otherwise.
#[verifier::external_body]
pub(crate) fn balance_sub(a: i64, b: i64) -> (r: Option<i64>)
    requires
        is_balance(a as int),
        is_balance(b as int),
    ensures
        r == checked_balance(a - b),
{
    (ZatBalance::const_from_i64(a) - ZatBalance::const_from_i64(b)).map(i64::from)
}

/// Adds two balances.
///
/// Calls `Add` of `ZatBalance`, which returns `ZatBalance::from_i64(a + b).ok()`:
/// the sum when it lies in the balance range, and `None` otherwise.
#[verifier::external_body]
pub(crate) fn balance_add(a: i64, b: i64) -> (r: Option<i64>)
    requires
        is_balance(a as int),
        is_balance(b as int),
    ensures
        r == checked_balance(a + b),
{
    (ZatBalance::const_from_i64(a) + ZatBalance::const_from_i64(b)).map(i64::from)
}

} // verus!

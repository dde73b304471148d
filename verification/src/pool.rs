//! A liquidity pool's token: what a holder's balance of it is worth in the
//! pool's second reserve.

use crate::balance::{has_word, word_value, Balance};
use crate::error::BalanceError;
use vstd::prelude::*;

verus! {

/// The fixed-point unit of a share: 10 to the power 18.
pub const PRECISION: u64 = 1_000_000_000_000_000_000;

/// The part of the supply that `balance` is, in units of `PRECISION`,
/// rounded down.
pub open spec fn share_of(balance: nat, total_supply: nat) -> nat {
    balance * PRECISION as nat / total_supply
}

/// What a share is worth in a reserve, rounded down.
pub open spec fn share_in_reserve(share: nat, reserve: nat) -> nat {
    share * reserve / PRECISION as nat
}

/// What `balance` pool tokens are worth in `reserve`.
pub open spec fn underlying_amount(balance: nat, total_supply: nat, reserve: nat) -> nat {
    share_in_reserve(share_of(balance, total_supply), reserve)
}

/// Rounding is downwards twice, so the amount never exceeds the exact part
/// of the reserve: `amount / reserve <= balance / total_supply`.
pub proof fn lemma_underlying_rounds_down(balance: nat, total_supply: nat, reserve: nat)
    requires
        total_supply > 0,
    ensures
        underlying_amount(balance, total_supply, reserve) * total_supply <= balance * reserve,
{
    let p = PRECISION as nat;
    let share = share_of(balance, total_supply);
    let amount = share_in_reserve(share, reserve);
    assert(share * total_supply <= balance * p) by (nonlinear_arith)
        requires
            share == balance * p / total_supply,
            total_supply > 0,
    ;
    assert(amount * p <= share * reserve) by (nonlinear_arith)
        requires
            amount == share * reserve / p,
            p > 0,
    ;
    assert(amount * total_supply <= balance * reserve) by (nonlinear_arith)
        requires
            share * total_supply <= balance * p,
            amount * p <= share * reserve,
            p > 0,
    ;
}

/// The two reserves of a pool at one block.
#[derive(Clone, Debug, PartialEq, Eq)]
pub struct TokenPair {
    pub reserve0: Balance,
    pub reserve1: Balance,
}

/// The reserves in the return data of the pool's `getReserves()`: the first
/// word and the second. What follows them is digits that are not read.
pub fn parse_reserves(text: &str) -> (r: Result<TokenPair, BalanceError>)
    ensures
        r is Ok <==> has_word(text@, 1),
        r matches Ok(pair) ==> pair.reserve0@ == word_value(text@, 0) && pair.reserve1@
            == word_value(text@, 1),
        r matches Err(e) ==> e == BalanceError::ParsingError,
{
    match (Balance::from_word(text, 0), Balance::from_word(text, 1)) {
        (Some(reserve0), Some(reserve1)) => Ok(TokenPair { reserve0, reserve1 }),
        _ => Err(BalanceError::ParsingError),
    }
}

/// The supply in the return data of the pool's `totalSupply()`: the first
/// word.
pub fn parse_total_supply(text: &str) -> (r: Result<Balance, BalanceError>)
    ensures
        r is Ok <==> has_word(text@, 0),
        r matches Ok(supply) ==> supply@ == word_value(text@, 0),
        r matches Err(e) ==> e == BalanceError::ParsingError,
{
    match Balance::from_word(text, 0) {
        Some(supply) => Ok(supply),
        None => Err(BalanceError::ParsingError),
    }
}

/// The part of the supply that `balance` is, in units of `PRECISION`; an
/// error when there is no supply.
pub fn share(balance: &Balance, total_supply: &Balance) -> (r: Result<Balance, BalanceError>)
    ensures
        r is Err <==> total_supply@ == 0,
        r matches Err(e) ==> e == BalanceError::ZeroTotalSupply,
        r matches Ok(s) ==> s@ == share_of(balance@, total_supply@),
{
    let precision = Balance::from_u64(PRECISION);
    match balance.product(&precision).quotient(total_supply) {
        Some(s) => Ok(s),
        None => Err(BalanceError::ZeroTotalSupply),
    }
}

/// What `balance` pool tokens are worth in `reserve`; an error when the
/// pool has no supply.
pub fn underlying(balance: &Balance, total_supply: &Balance, reserve: &Balance) -> (r: Result<
    Balance,
    BalanceError,
>)
    ensures
        r is Err <==> total_supply@ == 0,
        r matches Err(e) ==> e == BalanceError::ZeroTotalSupply,
        r matches Ok(v) ==> v@ == underlying_amount(balance@, total_supply@, reserve@),
{
    match share(balance, total_supply) {
        Err(e) => Err(e),
        Ok(s) => {
            let precision = Balance::from_u64(PRECISION);
            Ok(s.product(reserve).quotient_by_positive(&precision))
        },
    }
}

} // verus!

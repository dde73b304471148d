//! The calls that ask a token for balances, and a pool for its reserves
//! and its supply, all at one block.

use crate::address::{address_word, Address};
use crate::balance::{amounts_of, Balance};
use crate::error::BalanceError;
use crate::rpc::{
    call_of, collect, collected, eth_call, push_address_word, small_word, EthCall,
    Expected, RpcReply,
};
use vstd::prelude::*;

verus! {

/// The selector of `balanceOf(address)`.
pub const BALANCE_OF: [u8; 4] = [0x70, 0xa0, 0x82, 0x31];

/// The selector of `getReserves()`.
pub const GET_RESERVES: [u8; 4] = [0x09, 0x02, 0xf1, 0xac];

/// The selector of `totalSupply()`.
pub const TOTAL_SUPPLY: [u8; 4] = [0x18, 0x16, 0x0d, 0xdd];

/// The selector of `userInfo(uint256,address)`.
pub const USER_INFO: [u8; 4] = [0x93, 0xf1, 0xa4, 0x0b];

/// The number of the staking pool whose deposits `userInfo` is asked for.
pub const STAKING_POOL: u8 = 0x40;

/// The liquidity pool's token.
pub const POOL_TOKEN: [u8; 20] = [
    0xd2, 0x7b, 0x7d, 0x42, 0xd2, 0x4d, 0x8f, 0x7c, 0x1c, 0xf5,
    0xc4, 0x6c, 0xcd, 0x3b, 0x98, 0x6c, 0x39, 0x6f, 0xde, 0x17,
];

/// The liquidity pool's token, as an address.
pub fn pool_token() -> (r: Address)
    ensures
        r@ == POOL_TOKEN@,
{
    Address::from_bytes(POOL_TOKEN)
}

/// One batch for a token: for each holder, in the order given, the call that
/// reads the holder's balance at `block`. The call for `holders[i]` has the
/// id `i + 1`.
pub fn balance_requests(token: &Address, holders: &Vec<Address>, block: u64) -> (r: Vec<EthCall>)
    ensures
        r@.len() == holders@.len(),
        forall|i: int|
            0 <= i < r@.len() ==> (#[trigger] r@[i])@ == call_of(
                (i + 1) as nat,
                token@,
                BALANCE_OF@,
                address_word(holders@[i]@),
                block,
            ),
{
    let mut calls: Vec<EthCall> = Vec::new();
    let mut i: usize = 0;
    while i < holders.len()
        invariant
            i <= holders@.len(),
            calls@.len() == i,
            forall|k: int|
                0 <= k < i ==> (#[trigger] calls@[k])@ == call_of(
                    (k + 1) as nat,
                    token@,
                    BALANCE_OF@,
                    address_word(holders@[k]@),
                    block,
                ),
        decreases holders@.len() - i,
    {
        let mut arguments: Vec<u8> = Vec::new();
        push_address_word(&mut arguments, &holders[i]);
        assert(arguments@ =~= address_word(holders@[i as int]@));
        calls.push(eth_call((i + 1) as u64, token, &BALANCE_OF, &arguments, block));
        i += 1;
    }
    calls
}

/// The balances in the answers to a batch of `count` balance calls, in the
/// order of the holders. Each answer is read as a number of at most 256
/// bits; the batch fails as a whole.
pub fn balances_of_replies(count: usize, replies: &Vec<RpcReply>) -> (r: Result<
    Vec<Balance>,
    BalanceError,
>)
    ensures
        r is Ok <==> collected(replies@, count as nat, Expected::Quantity) is Some,
        r matches Ok(v) ==> amounts_of(v@) == collected(
            replies@,
            count as nat,
            Expected::Quantity,
        )->0,
        r matches Err(e) ==> e == BalanceError::ParsingError,
{
    collect(count, replies, Expected::Quantity)
}

/// One batch for a staking contract: for each holder, in the order given,
/// the call that reads what the holder has deposited in the staking pool at
/// `block`. The call for `holders[i]` has the id `i + 1`.
pub fn mapping_total_requests(staking: &Address, holders: &Vec<Address>, block: u64) -> (r: Vec<
    EthCall,
>)
    ensures
        r@.len() == holders@.len(),
        forall|i: int|
            0 <= i < r@.len() ==> (#[trigger] r@[i])@ == call_of(
                (i + 1) as nat,
                staking@,
                USER_INFO@,
                small_word(STAKING_POOL) + address_word(holders@[i]@),
                block,
            ),
{
    let mut calls: Vec<EthCall> = Vec::new();
    let mut i: usize = 0;
    while i < holders.len()
        invariant
            i <= holders@.len(),
            calls@.len() == i,
            forall|k: int|
                0 <= k < i ==> (#[trigger] calls@[k])@ == call_of(
                    (k + 1) as nat,
                    staking@,
                    USER_INFO@,
                    small_word(STAKING_POOL) + address_word(holders@[k]@),
                    block,
                ),
        decreases holders@.len() - i,
    {
        let mut arguments: Vec<u8> = Vec::new();
        let mut k: usize = 0;
        while k < 31
            invariant
                k <= 31,
                arguments@ == Seq::new(k as nat, |i: int| 0u8),
            decreases 31 - k,
        {
            arguments.push(0u8);
            k += 1;
            assert(arguments@ =~= Seq::new(k as nat, |i: int| 0u8));
        }
        arguments.push(STAKING_POOL);
        assert(arguments@ =~= small_word(STAKING_POOL));
        push_address_word(&mut arguments, &holders[i]);
        calls.push(eth_call((i + 1) as u64, staking, &USER_INFO, &arguments, block));
        i += 1;
    }
    calls
}

/// The deposits in the answers to a batch of `count` staking calls, in the
/// order of the holders: the first word of each answer.
pub fn mapping_totals_of_replies(count: usize, replies: &Vec<RpcReply>) -> (r: Result<
    Vec<Balance>,
    BalanceError,
>)
    ensures
        r is Ok <==> collected(replies@, count as nat, Expected::FirstWord) is Some,
        r matches Ok(v) ==> amounts_of(v@) == collected(
            replies@,
            count as nat,
            Expected::FirstWord,
        )->0,
        r matches Err(e) ==> e == BalanceError::ParsingError,
{
    collect(count, replies, Expected::FirstWord)
}

/// The call of a function of `contract` that takes no argument, at `block`.
/// It goes out alone, with the id 1.
pub fn query_contract(contract: &Address, block: u64, func_sig: &[u8; 4]) -> (r: EthCall)
    ensures
        r@ == call_of(1, contract@, func_sig@, Seq::empty(), block),
{
    let arguments: Vec<u8> = Vec::new();
    assert(arguments@ =~= Seq::<u8>::empty());
    eth_call(1, contract, func_sig, &arguments, block)
}

} // verus!

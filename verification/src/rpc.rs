//! Calls to the node and its answers, as plain values: a call carries an id
//! that the caller chose, and an answer is matched to its call by that id
//! alone, wherever it stands in the batch that came back.

use crate::address::{address_text, address_word, Address};
use crate::balance::{
    amounts_of, has_word, is_quantity, quantity_value, word_value, Balance,
};
use crate::error::BalanceError;
use crate::order::{
    backwards, is_shuffle, lemma_backwards, lemma_shuffle_back, lemma_shuffled_place, shuffled,
};
use crate::hex::{
    hex_text, lemma_quantity_len, lemma_quantity_round_trip, pow16, prefix, prefixed_hex,
    push_hex, quantity, quantity_digits, unprefixed,
};
use vstd::prelude::*;

verus! {

/// One read-only call of a contract at a block (`eth_call`).
#[derive(Clone, Debug, PartialEq, Eq)]
pub struct EthCall {
    /// The id under which the answer comes back.
    pub id: u64,
    /// The contract, as `0x` and 40 digits.
    pub to: String,
    /// The call data, as `0x` and digits: the selector, then the arguments.
    pub data: String,
    /// The block, as `0x` and its number in digits without leading zeros.
    pub block: String,
}

/// The parts of a call as mathematical values.
pub struct EthCallView {
    pub id: nat,
    pub to: Seq<char>,
    pub data: Seq<char>,
    pub block: Seq<char>,
}

impl View for EthCall {
    type V = EthCallView;

    open spec fn view(&self) -> EthCallView {
        EthCallView { id: self.id as nat, to: self.to@, data: self.data@, block: self.block@ }
    }
}

/// One answer of a batch: the id of the call, and the `result` of the
/// answer where it holds one that is a string.
#[derive(Clone, Debug, PartialEq, Eq)]
pub struct RpcReply {
    pub id: u64,
    pub result: Option<String>,
}

/// The text that an answer should hold.
#[derive(Clone, Copy, Debug, PartialEq, Eq, Structural)]
pub enum Expected {
    /// A number of at most 256 bits.
    Quantity,
    /// Return data, of which the first 32-byte word is the number.
    FirstWord,
}

/// The text of a block number.
pub open spec fn block_tag(block: u64) -> Seq<char> {
    prefix() + quantity_digits(block as nat)
}

/// A number below 256 as an argument of a call: a 32-byte word that ends
/// with it.
pub open spec fn small_word(n: u8) -> Seq<u8> {
    Seq::new(31, |i: int| 0u8).push(n)
}

/// The text of call data: the selector's bytes and the arguments' bytes.
pub open spec fn call_data(selector: Seq<u8>, arguments: Seq<u8>) -> Seq<char> {
    prefix() + hex_text(selector + arguments)
}

/// The call with the given parts.
pub open spec fn call_of(
    id: nat,
    to: Seq<u8>,
    selector: Seq<u8>,
    arguments: Seq<u8>,
    block: u64,
) -> EthCallView {
    EthCallView {
        id,
        to: address_text(to),
        data: call_data(selector, arguments),
        block: block_tag(block),
    }
}

/// The number in an answer, where it holds the expected text.
pub open spec fn reply_value(reply: RpcReply, expected: Expected) -> Option<nat> {
    match reply.result {
        Some(text) => match expected {
            Expected::Quantity => if is_quantity(text@) {
                Some(quantity_value(text@))
            } else {
                None
            },
            Expected::FirstWord => if has_word(text@, 0) {
                Some(word_value(text@, 0))
            } else {
                None
            },
        },
        None => None,
    }
}

/// Whether one of the answers has the given id.
pub open spec fn answered(replies: Seq<RpcReply>, id: nat) -> bool {
    exists|j: int| 0 <= j < replies.len() && (#[trigger] replies[j]).id == id
}

/// Whether the answers match the calls with the ids 1 to `count` one to one:
/// as many answers as calls, no other id, no id twice, none missing.
pub open spec fn one_to_one(replies: Seq<RpcReply>, count: nat) -> bool {
    &&& replies.len() == count
    &&& forall|j: int| 0 <= j < replies.len() ==> 1 <= (#[trigger] replies[j]).id <= count
    &&& forall|j: int, k: int|
        0 <= j < replies.len() && 0 <= k < replies.len() && j != k ==> (#[trigger] replies[j]).id
            != (#[trigger] replies[k]).id
    &&& forall|id: nat| 1 <= id <= count ==> #[trigger] answered(replies, id)
}

/// The answer with the given id.
pub open spec fn reply_to(replies: Seq<RpcReply>, id: nat) -> RpcReply {
    replies[choose|j: int| 0 <= j < replies.len() && (#[trigger] replies[j]).id == id]
}

/// The numbers in the answers, in the order of the calls; `None` when the
/// answers do not match the calls or one of them does not hold its number.
pub open spec fn collected(replies: Seq<RpcReply>, count: nat, expected: Expected) -> Option<
    Seq<nat>,
> {
    if one_to_one(replies, count) && forall|i: int|
        0 <= i < count ==> (#[trigger] reply_value(reply_to(replies, (i + 1) as nat), expected))
            is Some {
        Some(
            Seq::new(
                count,
                |i: int| reply_value(reply_to(replies, (i + 1) as nat), expected)->0,
            ),
        )
    } else {
        None
    }
}

/// The text of call data.
pub fn call_data_text(selector: &[u8; 4], arguments: &Vec<u8>) -> (r: String)
    ensures
        r@ == call_data(selector@, arguments@),
{
    let mut r = prefixed_hex(selector.as_slice());
    push_hex(&mut r, arguments.as_slice());
    proof {
        let all = selector@ + arguments@;
        assert forall|i: int| 0 <= i < 2 * all.len() implies hex_text(all)[i] == (hex_text(
            selector@,
        ) + hex_text(arguments@))[i] by {
            if i < 8 {
                assert(all[i / 2] == selector@[i / 2]);
            } else {
                assert(all[i / 2] == arguments@[(i - 8) / 2]);
                assert((i - 8) % 2 == i % 2);
            }
        }
        assert(r@ =~= prefix() + hex_text(all));
    }
    r
}

/// Appends the 32-byte word that ends with `address` to `arguments`.
pub fn push_address_word(arguments: &mut Vec<u8>, address: &Address)
    ensures
        final(arguments)@ == old(arguments)@ + address_word(address@),
{
    let mut k: usize = 0;
    while k < 12
        invariant
            k <= 12,
            arguments@ == old(arguments)@ + Seq::new(k as nat, |i: int| 0u8),
        decreases 12 - k,
    {
        arguments.push(0u8);
        k += 1;
        assert(arguments@ =~= old(arguments)@ + Seq::new(k as nat, |i: int| 0u8));
    }
    let mut k: usize = 0;
    while k < 20
        invariant
            k <= 20,
            arguments@ == old(arguments)@ + Seq::new(12, |i: int| 0u8) + address@.subrange(
                0,
                k as int,
            ),
        decreases 20 - k,
    {
        arguments.push(address.bytes[k]);
        k += 1;
        assert(arguments@ =~= old(arguments)@ + Seq::new(12, |i: int| 0u8) + address@.subrange(
            0,
            k as int,
        ));
    }
    assert(address@.subrange(0, 20) =~= address@);
    assert(arguments@ =~= old(arguments)@ + address_word(address@));
}

/// A call of the contract `to` at `block`.
pub fn eth_call(id: u64, to: &Address, selector: &[u8; 4], arguments: &Vec<u8>, block: u64) -> (r:
    EthCall)
    ensures
        r@ == call_of(id as nat, to@, selector@, arguments@, block),
{
    EthCall {
        id,
        to: to.to_hex(),
        data: call_data_text(selector, arguments),
        block: quantity(block),
    }
}

/// The text of a block number is a quantity that spells the number.
pub proof fn lemma_block_tag_round_trip(block: u64)
    ensures
        is_quantity(block_tag(block)),
        quantity_value(block_tag(block)) == block,
{
    let digits = quantity_digits(block as nat);
    lemma_quantity_round_trip(block as nat);
    assert(pow16(16) == 0x1_0000_0000_0000_0000) by {
        reveal_with_fuel(pow16, 17);
    }
    lemma_quantity_len(block as nat, 16);
    assert(unprefixed(block_tag(block)) =~= digits);
}

/// The number in an answer; `None` where it does not hold the expected text.
pub fn parse_reply(reply: &RpcReply, expected: Expected) -> (r: Option<Balance>)
    ensures
        r is Some <==> reply_value(*reply, expected) is Some,
        r matches Some(b) ==> b@ == reply_value(*reply, expected)->0,
{
    match &reply.result {
        Some(text) => match expected {
            Expected::Quantity => Balance::from_hex(text.as_str()),
            Expected::FirstWord => Balance::from_word(text.as_str(), 0),
        },
        None => None,
    }
}

/// Where no id occurs twice, the answer with an id is the one that has it.
pub proof fn lemma_reply_to(replies: Seq<RpcReply>, j: int)
    requires
        0 <= j < replies.len(),
        forall|a: int, b: int|
            0 <= a < replies.len() && 0 <= b < replies.len() && a != b ==> (
            #[trigger] replies[a]).id != (#[trigger] replies[b]).id,
    ensures
        reply_to(replies, replies[j].id as nat) == replies[j],
{
    let id = replies[j].id as nat;
    let k = choose|k: int| 0 <= k < replies.len() && (#[trigger] replies[k]).id == id;
    assert(k == j);
}

/// The numbers in the answers to `count` calls with the ids 1 to `count`,
/// in the order of the calls, wherever each answer stands in `replies`. The
/// whole batch fails when the answers do not match the calls one to one, or
/// when one of them does not hold the expected text.
pub fn collect(count: usize, replies: &Vec<RpcReply>, expected: Expected) -> (r: Result<
    Vec<Balance>,
    BalanceError,
>)
    ensures
        r is Ok <==> collected(replies@, count as nat, expected) is Some,
        r matches Ok(v) ==> amounts_of(v@) == collected(replies@, count as nat, expected)->0,
        r matches Err(e) ==> e == BalanceError::ParsingError,
{
    if replies.len() != count {
        return Err(BalanceError::ParsingError);
    }
    let mut slots: Vec<Option<usize>> = Vec::new();
    let mut i: usize = 0;
    while i < count
        invariant
            i <= count,
            slots@.len() == i,
            forall|k: int| 0 <= k < i ==> slots@[k] is None,
        decreases count - i,
    {
        slots.push(None);
        i += 1;
    }
    let mut j: usize = 0;
    while j < replies.len()
        invariant
            j <= replies@.len(),
            slots@.len() == count,
            forall|a: int| 0 <= a < j ==> 1 <= (#[trigger] replies@[a]).id <= count,
            forall|a: int|
                0 <= a < j ==> slots@[(#[trigger] replies@[a]).id - 1] == Some(a as usize),
            forall|k: int|
                0 <= k < count ==> ((#[trigger] slots@[k]) matches Some(a) ==> a < j
                    && replies@[a as int].id == k + 1),
        decreases replies@.len() - j,
    {
        let id = replies[j].id;
        if id == 0 || id > count as u64 {
            return Err(BalanceError::ParsingError);
        }
        let slot: usize = (id - 1) as usize;
        match slots[slot] {
            Some(a) => {
                assert(replies@[a as int].id == replies@[j as int].id);
                return Err(BalanceError::ParsingError);
            },
            None => {},
        }
        slots.set(slot, Some(j));
        j += 1;
    }
    assert forall|a: int, b: int|
        0 <= a < replies@.len() && 0 <= b < replies@.len() && a != b implies (
    #[trigger] replies@[a]).id != (#[trigger] replies@[b]).id by {
        assert(slots@[replies@[a].id - 1] == Some(a as usize));
        assert(slots@[replies@[b].id - 1] == Some(b as usize));
    }
    let mut out: Vec<Balance> = Vec::new();
    let mut i: usize = 0;
    while i < count
        invariant
            i <= count,
            slots@.len() == count,
            out@.len() == i,
            forall|a: int| 0 <= a < replies@.len() ==> 1 <= (#[trigger] replies@[a]).id <= count,
            forall|a: int, b: int|
                0 <= a < replies@.len() && 0 <= b < replies@.len() && a != b ==> (
                #[trigger] replies@[a]).id != (#[trigger] replies@[b]).id,
            forall|a: int|
                0 <= a < replies@.len() ==> slots@[(#[trigger] replies@[a]).id - 1] == Some(
                    a as usize,
                ),
            forall|k: int|
                0 <= k < count ==> ((#[trigger] slots@[k]) matches Some(a) ==> a
                    < replies@.len() && replies@[a as int].id == k + 1),
            forall|k: int| 0 <= k < i ==> #[trigger] answered(replies@, (k + 1) as nat),
            forall|k: int|
                0 <= k < i ==> reply_value(
                    #[trigger] reply_to(replies@, (k + 1) as nat),
                    expected,
                ) == Some(out@[k]@),
        decreases count - i,
    {
        match slots[i] {
            None => {
                proof {
                    if answered(replies@, (i + 1) as nat) {
                        let a = choose|a: int|
                            0 <= a < replies@.len() && (#[trigger] replies@[a]).id == i + 1;
                        assert(slots@[replies@[a].id - 1] == Some(a as usize));
                    }
                }
                return Err(BalanceError::ParsingError);
            },
            Some(a) => {
                proof {
                    lemma_reply_to(replies@, a as int);
                }
                match parse_reply(&replies[a], expected) {
                    None => {
                        assert(reply_value(reply_to(replies@, (i + 1) as nat), expected) is None);
                        return Err(BalanceError::ParsingError);
                    },
                    Some(balance) => {
                        out.push(balance);
                    },
                }
            },
        }
        i += 1;
    }
    proof {
        assert(one_to_one(replies@, count as nat)) by {
            assert forall|id: nat| 1 <= id <= count implies #[trigger] answered(replies@, id) by {
                assert(answered(replies@, ((id - 1) + 1) as nat));
            }
        }
        assert forall|k: int| 0 <= k < count implies (#[trigger] reply_value(
            reply_to(replies@, (k + 1) as nat),
            expected,
        )) is Some by {
            assert(reply_value(reply_to(replies@, (k + 1) as nat), expected) == Some(out@[k]@));
        }
        assert(amounts_of(out@) =~= collected(replies@, count as nat, expected)->0);
    }
    Ok(out)
}

/// Answers that match the calls still match them in another order.
proof fn lemma_shuffle_keeps_matching(replies: Seq<RpcReply>, order: Seq<int>, count: nat)
    requires
        is_shuffle(order, replies.len()),
        one_to_one(replies, count),
    ensures
        one_to_one(shuffled(replies, order), count),
        forall|id: nat|
            1 <= id <= count ==> #[trigger] reply_to(shuffled(replies, order), id) == reply_to(
                replies,
                id,
            ),
{
    let moved = shuffled(replies, order);
    assert forall|id: nat| 1 <= id <= count implies answered(moved, id) && #[trigger] reply_to(
        moved,
        id,
    ) == reply_to(replies, id) by {
        assert(answered(replies, id));
        let j = choose|j: int| 0 <= j < replies.len() && (#[trigger] replies[j]).id == id;
        let i = lemma_shuffled_place(replies, order, j);
        lemma_reply_to(replies, j);
        lemma_reply_to(moved, i);
    }
    assert forall|id: nat| 1 <= id <= count implies #[trigger] answered(moved, id) by {
        assert(reply_to(moved, id) == reply_to(replies, id));
    }
}

/// The order in which the answers of a batch come back does not matter: in
/// whatever order they stand, each number goes to the call whose id its
/// answer carries.
pub proof fn lemma_order_of_replies(
    replies: Seq<RpcReply>,
    order: Seq<int>,
    count: nat,
    expected: Expected,
)
    requires
        is_shuffle(order, replies.len()),
    ensures
        collected(shuffled(replies, order), count, expected) == collected(
            replies,
            count,
            expected,
        ),
{
    let moved = shuffled(replies, order);
    if one_to_one(replies, count) {
        lemma_shuffle_keeps_matching(replies, order, count);
    }
    if one_to_one(moved, count) {
        let back = lemma_shuffle_back(replies, order);
        lemma_shuffle_keeps_matching(moved, back, count);
        lemma_shuffle_keeps_matching(replies, order, count);
    }
    if collected(replies, count, expected) is Some {
        assert forall|i: int| 0 <= i < count implies (#[trigger] reply_value(
            reply_to(moved, (i + 1) as nat),
            expected,
        )) is Some by {
            assert(reply_value(reply_to(replies, (i + 1) as nat), expected) is Some);
        }
        assert(collected(moved, count, expected)->0 =~= collected(replies, count, expected)->0);
    }
    if collected(moved, count, expected) is Some {
        assert forall|i: int| 0 <= i < count implies (#[trigger] reply_value(
            reply_to(replies, (i + 1) as nat),
            expected,
        )) is Some by {
            assert(reply_value(reply_to(moved, (i + 1) as nat), expected) is Some);
        }
    }
}

/// The answers of a batch read the same backwards.
pub proof fn lemma_replies_reversed(replies: Seq<RpcReply>, count: nat, expected: Expected)
    ensures
        collected(replies.reverse(), count, expected) == collected(replies, count, expected),
{
    lemma_backwards(replies);
    lemma_order_of_replies(replies, backwards(replies.len()), count, expected);
}

/// Answers that stand in the order of the calls, each with the id of its
/// call, give their numbers place by place.
pub proof fn lemma_replies_in_order(replies: Seq<RpcReply>, expected: Expected)
    requires
        forall|i: int| 0 <= i < replies.len() ==> (#[trigger] replies[i]).id == i + 1,
    ensures
        one_to_one(replies, replies.len()),
        forall|i: int|
            0 <= i < replies.len() ==> #[trigger] reply_to(replies, (i + 1) as nat) == replies[i],
        collected(replies, replies.len(), expected) is Some ==> forall|i: int|
            0 <= i < replies.len() ==> Some(
                #[trigger] collected(replies, replies.len(), expected)->0[i],
            ) == reply_value(replies[i], expected),
{
    assert forall|id: nat| 1 <= id <= replies.len() implies #[trigger] answered(replies, id) by {
        assert(replies[id - 1].id == id);
    }
    assert forall|i: int| 0 <= i < replies.len() implies #[trigger] reply_to(
        replies,
        (i + 1) as nat,
    ) == replies[i] by {
        lemma_reply_to(replies, i);
    }
}

} // verus!

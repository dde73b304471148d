//! Transfer events: the query that asks the node for the logs of a range of
//! blocks, and the two accounts that each log names.

use crate::address::{address_text, is_topic_text, topic_address_bytes, Address};
use crate::error::BalanceError;
use crate::hex::{hex_text, prefix, prefixed_hex, quantity};
use crate::ranges::BlockRange;
use crate::rpc::block_tag;
use vstd::prelude::*;

verus! {

/// The topic of `Transfer(address,address,uint256)`: the hash of that
/// signature.
pub const TRANSFER_TOPIC: [u8; 32] = [
    0xdd, 0xf2, 0x52, 0xad, 0x1b, 0xe2, 0xc8, 0x9b, 0x69, 0xc2, 0xb0, 0x68, 0xfc, 0x37, 0x8d, 0xaa,
    0x95, 0x2b, 0xa7, 0xf1, 0x63, 0xc4, 0xa1, 0x16, 0x28, 0xf5, 0x5a, 0x4d, 0xf5, 0x23, 0xb3, 0xef,
];

/// One query for logs (`eth_getLogs`): the logs that `address` wrote with
/// the first topic `topic` in the blocks from `from_block` to `to_block`,
/// both included.
#[derive(Clone, Debug, PartialEq, Eq)]
pub struct LogQuery {
    /// The contract, as `0x` and 40 digits.
    pub address: String,
    /// The event's topic, as `0x` and 64 digits.
    pub topic: String,
    /// The first block, as `0x` and its number in digits.
    pub from_block: String,
    /// The last block, as `0x` and its number in digits.
    pub to_block: String,
}

/// One log that the node returned: its topics, each as `0x` and 64 digits.
#[derive(Clone, Debug, PartialEq, Eq)]
pub struct LogEntry {
    pub topics: Vec<String>,
}

/// Tokens went from one account to another.
#[derive(Clone, Copy, Debug, PartialEq, Eq)]
pub struct TransferEvent {
    pub from: Address,
    pub to: Address,
}

/// Whether a log names a sender and a receiver: it has a second and a third
/// topic, and both are topic words.
pub open spec fn is_transfer_log(log: LogEntry) -> bool {
    &&& log.topics@.len() >= 3
    &&& is_topic_text(log.topics@[1]@)
    &&& is_topic_text(log.topics@[2]@)
}

/// Whether a transfer is the one that a log names: the sender is in the
/// second topic, the receiver in the third.
pub open spec fn names(log: LogEntry, transfer: TransferEvent) -> bool {
    &&& transfer.from@ == topic_address_bytes(log.topics@[1]@)
    &&& transfer.to@ == topic_address_bytes(log.topics@[2]@)
}

/// The query for the logs of a range of blocks.
pub fn log_query(contract: &Address, topic: &[u8; 32], range: BlockRange) -> (r: LogQuery)
    ensures
        r.address@ == address_text(contract@),
        r.topic@ == prefix() + hex_text(topic@),
        r.from_block@ == block_tag(range.from),
        r.to_block@ == block_tag(range.to),
{
    LogQuery {
        address: contract.to_hex(),
        topic: prefixed_hex(topic.as_slice()),
        from_block: quantity(range.from),
        to_block: quantity(range.to),
    }
}

/// The transfer that a log names; `None` when the log names none.
pub fn transfer_of(log: &LogEntry) -> (r: Option<TransferEvent>)
    ensures
        r is Some <==> is_transfer_log(*log),
        r matches Some(t) ==> names(*log, t),
{
    if log.topics.len() < 3 {
        return None;
    }
    match (
        Address::from_topic(log.topics[1].as_str()),
        Address::from_topic(log.topics[2].as_str()),
    ) {
        (Some(from), Some(to)) => Some(TransferEvent { from, to }),
        _ => None,
    }
}

/// The transfers that the logs of one query name, in the order of the logs.
/// One log that names none fails the whole range.
pub fn extract_transfers(logs: &Vec<LogEntry>) -> (r: Result<Vec<TransferEvent>, BalanceError>)
    ensures
        r is Ok <==> forall|i: int| 0 <= i < logs@.len() ==> is_transfer_log(#[trigger] logs@[i]),
        r matches Ok(transfers) ==> transfers@.len() == logs@.len() && forall|i: int|
            0 <= i < logs@.len() ==> names(logs@[i], #[trigger] transfers@[i]),
        r matches Err(e) ==> e == BalanceError::ParsingError,
{
    let mut transfers: Vec<TransferEvent> = Vec::new();
    let mut i: usize = 0;
    while i < logs.len()
        invariant
            i <= logs@.len(),
            transfers@.len() == i,
            forall|k: int| 0 <= k < i ==> is_transfer_log(#[trigger] logs@[k]),
            forall|k: int| 0 <= k < i ==> names(logs@[k], #[trigger] transfers@[k]),
        decreases logs@.len() - i,
    {
        match transfer_of(&logs[i]) {
            Some(t) => {
                transfers.push(t);
            },
            None => {
                return Err(BalanceError::ParsingError);
            },
        }
        i += 1;
    }
    Ok(transfers)
}

} // verus!

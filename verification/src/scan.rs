//! Putting the scans of the batches together: the holders that the scans
//! that went well have found, and the ranges of those that failed.

use crate::address::Address;
use crate::error::BalanceError;
use crate::holders::{distinct, lemma_distinct, with, HolderSet};
use crate::logs::{extract_transfers, is_transfer_log, names, LogEntry, TransferEvent};
use crate::order::{is_shuffle, lemma_shuffled_place, shuffled};
use crate::ranges::{
    batches, lemma_batches_partition, lemma_partition_no_gap, lemma_partition_within, partitions,
    BlockRange,
};
use vstd::prelude::*;

verus! {

/// How the scan of one batch ended: the transfers in its range, or why
/// there are none.
#[derive(Debug, PartialEq, Eq)]
pub struct ScanOutcome {
    pub range: BlockRange,
    pub result: Result<Vec<TransferEvent>, BalanceError>,
}

/// A range whose scan failed, and why.
#[derive(Clone, Copy, Debug, PartialEq, Eq)]
pub struct FailedRange {
    pub range: BlockRange,
    pub error: BalanceError,
}

/// What all the scans gave.
#[derive(Debug, PartialEq, Eq)]
pub struct Merged {
    /// Every sender and receiver of a transfer in a scan that went well.
    pub holders: HolderSet,
    /// The scans that failed, in the order of the batches.
    pub failed: Vec<FailedRange>,
    /// How many scans went well.
    pub succeeded: usize,
}

/// The senders and receivers of some transfers, transfer by transfer.
pub open spec fn addresses_of(transfers: Seq<TransferEvent>) -> Seq<Address>
    decreases transfers.len(),
{
    if transfers.len() == 0 {
        Seq::empty()
    } else {
        addresses_of(transfers.drop_last()).push(transfers.last().from).push(transfers.last().to)
    }
}

/// The accounts that one scan found: none when it failed.
pub open spec fn found_by(outcome: ScanOutcome) -> Seq<Address> {
    match outcome.result {
        Ok(transfers) => addresses_of(transfers@),
        Err(_) => Seq::empty(),
    }
}

/// The accounts that the scans found, scan by scan.
pub open spec fn found(outcomes: Seq<ScanOutcome>) -> Seq<Address>
    decreases outcomes.len(),
{
    if outcomes.len() == 0 {
        Seq::empty()
    } else {
        found(outcomes.drop_last()) + found_by(outcomes.last())
    }
}

/// How many of the scans went well.
pub open spec fn successes(outcomes: Seq<ScanOutcome>) -> nat
    decreases outcomes.len(),
{
    if outcomes.len() == 0 {
        0
    } else {
        match outcomes.last().result {
            Ok(_) => successes(outcomes.drop_last()) + 1,
            Err(_) => successes(outcomes.drop_last()),
        }
    }
}

/// The scans that failed, in their order.
pub open spec fn failures(outcomes: Seq<ScanOutcome>) -> Seq<FailedRange>
    decreases outcomes.len(),
{
    if outcomes.len() == 0 {
        Seq::empty()
    } else {
        match outcomes.last().result {
            Ok(_) => failures(outcomes.drop_last()),
            Err(error) => failures(outcomes.drop_last()).push(
                FailedRange { range: outcomes.last().range, error },
            ),
        }
    }
}

/// A transfer as the chain recorded it: in a block.
pub struct Emitted {
    pub block: u64,
    pub transfer: TransferEvent,
}

/// The transfers of `history` in the blocks of `range`, in their order.
pub open spec fn emitted_in(history: Seq<Emitted>, range: BlockRange) -> Seq<TransferEvent>
    decreases history.len(),
{
    if history.len() == 0 {
        Seq::empty()
    } else {
        let before = emitted_in(history.drop_last(), range);
        if range.holds(history.last().block) {
            before.push(history.last().transfer)
        } else {
            before
        }
    }
}

/// Whether the scans are those of `ranges`, one for each in their order,
/// and each went well and gave the transfers of `history` in its range, in
/// whatever order and however often.
pub open spec fn faithful(
    outcomes: Seq<ScanOutcome>,
    history: Seq<Emitted>,
    ranges: Seq<BlockRange>,
) -> bool {
    &&& outcomes.len() == ranges.len()
    &&& forall|i: int|
        0 <= i < outcomes.len() ==> {
            &&& (#[trigger] outcomes[i]).range == ranges[i]
            &&& outcomes[i].result matches Ok(transfers)
            &&& forall|t: TransferEvent|
                transfers@.contains(t) <==> emitted_in(history, ranges[i]).contains(t)
        }
}

/// Whether `a` sent or received in a transfer of `history` in a block from
/// `low` to `high`.
pub open spec fn took_part(history: Seq<Emitted>, low: u64, high: u64, a: Address) -> bool {
    exists|i: int|
        0 <= i < history.len() && low <= (#[trigger] history[i]).block <= high && (
        history[i].transfer.from == a || history[i].transfer.to == a)
}

/// Whether `a` is the sender or the receiver of one of the transfers.
pub open spec fn party_of(transfers: Seq<TransferEvent>, a: Address) -> bool {
    exists|k: int|
        0 <= k < transfers.len() && ((#[trigger] transfers[k]).from == a || transfers[k].to == a)
}

/// The accounts of some transfers are their senders and receivers.
pub proof fn lemma_addresses_of(transfers: Seq<TransferEvent>, a: Address)
    ensures
        addresses_of(transfers).contains(a) <==> party_of(transfers, a),
    decreases transfers.len(),
{
    if transfers.len() > 0 {
        let front = transfers.drop_last();
        let last = transfers.last();
        lemma_addresses_of(front, a);
        let all = addresses_of(transfers);
        let before = addresses_of(front);
        if party_of(transfers, a) {
            let k = choose|k: int|
                0 <= k < transfers.len() && ((#[trigger] transfers[k]).from == a || transfers[k].to
                    == a);
            if k < front.len() {
                assert(front[k] == transfers[k]);
                assert(party_of(front, a));
                let j = choose|j: int| 0 <= j < before.len() && before[j] == a;
                assert(all[j] == a);
            } else if last.from == a {
                assert(all[before.len() as int] == a);
            } else {
                assert(all[before.len() as int + 1] == a);
            }
        }
        if all.contains(a) {
            let j = choose|j: int| 0 <= j < all.len() && all[j] == a;
            if j < before.len() {
                assert(before[j] == a);
                assert(before.contains(a));
                let k = choose|k: int|
                    0 <= k < front.len() && ((#[trigger] front[k]).from == a || front[k].to == a);
                assert(transfers[k] == front[k]);
            } else {
                assert(transfers[transfers.len() - 1] == last);
            }
        }
    }
}

/// An account that the scans found was found by one of them.
pub proof fn lemma_found(outcomes: Seq<ScanOutcome>, a: Address)
    ensures
        found(outcomes).contains(a) <==> exists|i: int|
            0 <= i < outcomes.len() && found_by(#[trigger] outcomes[i]).contains(a),
    decreases outcomes.len(),
{
    if outcomes.len() > 0 {
        let front = outcomes.drop_last();
        lemma_found(front, a);
        let all = found(outcomes);
        let before = found(front);
        let here = found_by(outcomes.last());
        if all.contains(a) {
            let j = choose|j: int| 0 <= j < all.len() && all[j] == a;
            if j < before.len() {
                assert(before[j] == a);
                assert(before.contains(a));
                let i = choose|i: int|
                    0 <= i < front.len() && found_by(#[trigger] front[i]).contains(a);
                assert(outcomes[i] == front[i]);
            } else {
                assert(here[j - before.len()] == a);
                assert(found_by(outcomes[outcomes.len() - 1]).contains(a));
            }
        }
        if exists|i: int| 0 <= i < outcomes.len() && found_by(#[trigger] outcomes[i]).contains(a) {
            let i = choose|i: int|
                0 <= i < outcomes.len() && found_by(#[trigger] outcomes[i]).contains(a);
            if i < front.len() {
                assert(front[i] == outcomes[i]);
                assert(before.contains(a));
                let j = choose|j: int| 0 <= j < before.len() && before[j] == a;
                assert(all[j] == a);
            } else {
                let j = choose|j: int| 0 <= j < here.len() && here[j] == a;
                assert(all[before.len() as int + j] == a);
            }
        }
    }
}

/// The transfers in a range are those of the history whose block the range
/// holds.
pub proof fn lemma_emitted_in(history: Seq<Emitted>, range: BlockRange, t: TransferEvent)
    ensures
        emitted_in(history, range).contains(t) <==> exists|i: int|
            0 <= i < history.len() && range.holds((#[trigger] history[i]).block)
                && history[i].transfer == t,
    decreases history.len(),
{
    if history.len() > 0 {
        let front = history.drop_last();
        lemma_emitted_in(front, range, t);
        let all = emitted_in(history, range);
        let before = emitted_in(front, range);
        if all.contains(t) {
            let j = choose|j: int| 0 <= j < all.len() && all[j] == t;
            if j < before.len() {
                assert(before[j] == t);
                assert(before.contains(t));
                let i = choose|i: int|
                    0 <= i < front.len() && range.holds((#[trigger] front[i]).block)
                        && front[i].transfer == t;
                assert(history[i] == front[i]);
            } else {
                assert(history[history.len() - 1].transfer == t);
            }
        }
        if exists|i: int|
            0 <= i < history.len() && range.holds((#[trigger] history[i]).block)
                && history[i].transfer == t {
            let i = choose|i: int|
                0 <= i < history.len() && range.holds((#[trigger] history[i]).block)
                    && history[i].transfer == t;
            if i < front.len() {
                assert(front[i] == history[i]);
                assert(before.contains(t));
                let j = choose|j: int| 0 <= j < before.len() && before[j] == t;
                assert(all[j] == t);
            } else {
                assert(all[all.len() - 1] == t);
            }
        }
    }
}

/// A scan that failed does not keep out what the others found: every sender
/// and receiver of a scan that went well is among the holders.
pub proof fn lemma_found_despite_failures(outcomes: Seq<ScanOutcome>, i: int, k: int)
    requires
        0 <= i < outcomes.len(),
        outcomes[i].result is Ok,
        0 <= k < outcomes[i].result->Ok_0@.len(),
    ensures
        distinct(found(outcomes)).contains(outcomes[i].result->Ok_0@[k].from),
        distinct(found(outcomes)).contains(outcomes[i].result->Ok_0@[k].to),
{
    let transfers = outcomes[i].result->Ok_0@;
    let t = transfers[k];
    lemma_addresses_of(transfers, t.from);
    lemma_addresses_of(transfers, t.to);
    assert(party_of(transfers, t.from));
    assert(party_of(transfers, t.to));
    assert(found_by(outcomes[i]).contains(t.from));
    assert(found_by(outcomes[i]).contains(t.to));
    lemma_found(outcomes, t.from);
    lemma_found(outcomes, t.to);
    lemma_distinct(found(outcomes));
}

/// Scans of the pieces of a partition find the accounts that took part in
/// a transfer between its ends, and no others.
pub proof fn lemma_found_in_partition(
    outcomes: Seq<ScanOutcome>,
    history: Seq<Emitted>,
    ranges: Seq<BlockRange>,
    low: u64,
    high: u64,
    a: Address,
)
    requires
        partitions(ranges, low, high),
        faithful(outcomes, history, ranges),
    ensures
        found(outcomes).contains(a) <==> took_part(history, low, high, a),
{
    lemma_found(outcomes, a);
    if found(outcomes).contains(a) {
        let i = choose|i: int|
            0 <= i < outcomes.len() && found_by(#[trigger] outcomes[i]).contains(a);
        let transfers = outcomes[i].result->Ok_0@;
        lemma_addresses_of(transfers, a);
        let k = choose|k: int|
            0 <= k < transfers.len() && ((#[trigger] transfers[k]).from == a || transfers[k].to
                == a);
        assert(transfers.contains(transfers[k]));
        lemma_emitted_in(history, ranges[i], transfers[k]);
        let e = choose|e: int|
            0 <= e < history.len() && ranges[i].holds((#[trigger] history[e]).block)
                && history[e].transfer == transfers[k];
        lemma_partition_within(ranges, low, high, i);
        assert(low <= history[e].block <= high);
    }
    if took_part(history, low, high, a) {
        let e = choose|e: int|
            0 <= e < history.len() && low <= (#[trigger] history[e]).block <= high && (
            history[e].transfer.from == a || history[e].transfer.to == a);
        let i = lemma_partition_no_gap(ranges, low, high, history[e].block);
        let transfers = outcomes[i].result->Ok_0@;
        lemma_emitted_in(history, ranges[i], history[e].transfer);
        assert(transfers.contains(history[e].transfer));
        let k = choose|k: int| 0 <= k < transfers.len() && transfers[k] == history[e].transfer;
        assert(party_of(transfers, a));
        lemma_addresses_of(transfers, a);
        assert(found_by(outcomes[i]).contains(a));
    }
}

/// Every scan either went well or is listed as failed.
pub proof fn lemma_every_scan_counts(outcomes: Seq<ScanOutcome>)
    ensures
        successes(outcomes) + failures(outcomes).len() == outcomes.len(),
    decreases outcomes.len(),
{
    if outcomes.len() > 0 {
        lemma_every_scan_counts(outcomes.drop_last());
    }
}

/// The order in which the scans come in does not matter to who the holders
/// are: the scans in another order give the same set of holders.
pub proof fn lemma_holders_whatever_the_order(outcomes: Seq<ScanOutcome>, order: Seq<int>)
    requires
        is_shuffle(order, outcomes.len()),
    ensures
        distinct(found(shuffled(outcomes, order))).to_set() == distinct(found(outcomes)).to_set(),
{
    let moved = shuffled(outcomes, order);
    lemma_distinct(found(outcomes));
    lemma_distinct(found(moved));
    assert forall|a: Address| #[trigger]
        distinct(found(moved)).contains(a) <==> distinct(found(outcomes)).contains(a) by {
        lemma_found(outcomes, a);
        lemma_found(moved, a);
        if found(outcomes).contains(a) {
            let j = choose|j: int|
                0 <= j < outcomes.len() && found_by(#[trigger] outcomes[j]).contains(a);
            let i = lemma_shuffled_place(outcomes, order, j);
            assert(found_by(moved[i]).contains(a));
        }
        if found(moved).contains(a) {
            let i = choose|i: int| 0 <= i < moved.len() && found_by(#[trigger] moved[i]).contains(a);
            assert(found_by(outcomes[order[i]]).contains(a));
        }
    }
    assert(distinct(found(moved)).to_set() =~= distinct(found(outcomes)).to_set());
}

/// The batch size does not matter to the holders: where every scan goes
/// well, the holders are the accounts that took part in a transfer from the
/// creation block to the target block, however the blocks were cut into
/// batches.
pub proof fn lemma_holders_whatever_the_batch_size(
    history: Seq<Emitted>,
    creation: u64,
    target: u64,
    batch_size: u64,
    other_size: u64,
    outcomes: Seq<ScanOutcome>,
    others: Seq<ScanOutcome>,
)
    requires
        faithful(outcomes, history, batches(creation, target, batch_size)),
        faithful(others, history, batches(creation, target, other_size)),
    ensures
        distinct(found(outcomes)).to_set() == distinct(found(others)).to_set(),
        creation <= target ==> forall|a: Address|
            distinct(found(outcomes)).contains(a) <==> took_part(history, creation, target, a),
{
    lemma_distinct(found(outcomes));
    lemma_distinct(found(others));
    if creation <= target {
        lemma_batches_partition(creation, target, batch_size);
        lemma_batches_partition(creation, target, other_size);
        assert forall|a: Address|
            distinct(found(outcomes)).contains(a) <==> took_part(
                history,
                creation,
                target,
                a,
            ) by {
            lemma_found_in_partition(
                outcomes,
                history,
                batches(creation, target, batch_size),
                creation,
                target,
                a,
            );
        }
        assert forall|a: Address|
            distinct(found(others)).contains(a) <==> took_part(history, creation, target, a) by {
            lemma_found_in_partition(
                others,
                history,
                batches(creation, target, other_size),
                creation,
                target,
                a,
            );
        }
    } else {
        assert(found(outcomes) =~= Seq::<Address>::empty());
        assert(found(others) =~= Seq::<Address>::empty());
    }
    assert(distinct(found(outcomes)).to_set() =~= distinct(found(others)).to_set());
}

/// How the scan of a range ended, from what the node answered: its logs, or
/// the failure of the query. Logs that name no sender and receiver fail the
/// range too.
pub fn scan_outcome(range: BlockRange, reply: Result<Vec<LogEntry>, BalanceError>) -> (r:
    ScanOutcome)
    ensures
        r.range == range,
        reply matches Err(e) ==> r.result == Err::<Vec<TransferEvent>, BalanceError>(e),
        reply matches Ok(logs) ==> {
            &&& r.result is Ok <==> forall|i: int|
                0 <= i < logs@.len() ==> is_transfer_log(#[trigger] logs@[i])
            &&& r.result matches Ok(transfers) ==> transfers@.len() == logs@.len() && forall|
                i: int,
            | 0 <= i < logs@.len() ==> names(logs@[i], #[trigger] transfers@[i])
            &&& r.result matches Err(e) ==> e == BalanceError::ParsingError
        },
{
    match reply {
        Ok(logs) => ScanOutcome { range, result: extract_transfers(&logs) },
        Err(e) => ScanOutcome { range, result: Err(e) },
    }
}

/// Puts the accounts of `transfers` into `holders`.
fn insert_all(holders: &mut HolderSet, transfers: &Vec<TransferEvent>, Ghost(before): Ghost<
    Seq<Address>,
>)
    requires
        old(holders).wf(),
        old(holders)@ == distinct(before),
    ensures
        final(holders).wf(),
        final(holders)@ == distinct(before + addresses_of(transfers@)),
{
    let mut k: usize = 0;
    assert(before + addresses_of(transfers@.subrange(0, 0)) =~= before);
    while k < transfers.len()
        invariant
            k <= transfers@.len(),
            holders.wf(),
            holders@ == distinct(before + addresses_of(transfers@.subrange(0, k as int))),
        decreases transfers@.len() - k,
    {
        let t = transfers[k];
        proof {
            let done = transfers@.subrange(0, k as int);
            let more = transfers@.subrange(0, k + 1);
            assert(more.drop_last() =~= done);
            let a = before + addresses_of(done);
            let b = a.push(t.from);
            let c = b.push(t.to);
            assert(more.last() == t);
            assert(addresses_of(more) == addresses_of(done).push(t.from).push(t.to));
            assert(before + addresses_of(more) =~= c);
            assert(c.drop_last() =~= b);
            assert(b.drop_last() =~= a);
            assert(distinct(b) == with(distinct(a), t.from));
            assert(distinct(c) == with(distinct(b), t.to));
        }
        holders.insert(t.from);
        holders.insert(t.to);
        k += 1;
    }
    assert(transfers@.subrange(0, transfers@.len() as int) =~= transfers@);
}

/// Puts the scans of all batches together. A scan that failed takes nothing
/// away from the others: the holders are the senders and receivers of every
/// scan that went well, each once, in the order in which they were first
/// seen, and the failed ranges are listed beside them.
pub fn merge_scans(outcomes: &Vec<ScanOutcome>) -> (r: Merged)
    ensures
        r.holders.wf(),
        r.holders@ == distinct(found(outcomes@)),
        r.failed@ == failures(outcomes@),
        r.succeeded == successes(outcomes@),
        r.succeeded + r.failed@.len() == outcomes@.len(),
{
    let mut holders = HolderSet::new();
    let mut failed: Vec<FailedRange> = Vec::new();
    let mut succeeded: usize = 0;
    let mut i: usize = 0;
    assert(holders@ =~= distinct(found(outcomes@.subrange(0, 0))));
    while i < outcomes.len()
        invariant
            i <= outcomes@.len(),
            holders.wf(),
            holders@ == distinct(found(outcomes@.subrange(0, i as int))),
            failed@ == failures(outcomes@.subrange(0, i as int)),
            succeeded == successes(outcomes@.subrange(0, i as int)),
            succeeded <= i,
        decreases outcomes@.len() - i,
    {
        let ghost done = outcomes@.subrange(0, i as int);
        assert(outcomes@.subrange(0, i + 1).drop_last() =~= done);
        match &outcomes[i].result {
            Ok(transfers) => {
                insert_all(&mut holders, transfers, Ghost(found(done)));
                succeeded += 1;
            },
            Err(error) => {
                failed.push(FailedRange { range: outcomes[i].range, error: *error });
                assert(found(done) + Seq::<Address>::empty() =~= found(done));
            },
        }
        i += 1;
    }
    assert(outcomes@.subrange(0, outcomes@.len() as int) =~= outcomes@);
    proof {
        lemma_every_scan_counts(outcomes@);
    }
    Merged { holders, failed, succeeded }
}

} // verus!

//! Cutting the blocks from a contract's creation to the target block into
//! batches that are scanned one by one.

use vstd::prelude::*;

verus! {

/// The blocks from `from` to `to`, both included.
#[derive(Clone, Copy, Debug, PartialEq, Eq, Structural)]
pub struct BlockRange {
    pub from: u64,
    pub to: u64,
}

impl BlockRange {
    /// Whether the range holds `block`.
    pub open spec fn holds(self, block: u64) -> bool {
        self.from <= block <= self.to
    }
}

/// Where the batch that starts at `from` ends: `batch_size` blocks further
/// on, but not beyond `target`.
pub open spec fn batch_end(from: u64, target: u64, batch_size: u64) -> u64 {
    if from + batch_size <= target {
        (from + batch_size) as u64
    } else {
        target
    }
}

/// The batches from `from` to `target`: the first starts at `from`, each
/// next one starts one block after the one before ends, and the last one
/// ends at `target`. None when `from` lies beyond `target`.
pub open spec fn batches(from: u64, target: u64, batch_size: u64) -> Seq<BlockRange>
    decreases target - from,
{
    if from > target {
        Seq::empty()
    } else {
        let to = batch_end(from, target, batch_size);
        let first = seq![BlockRange { from, to }];
        if to >= target {
            first
        } else {
            first + batches((to + 1) as u64, target, batch_size)
        }
    }
}

/// Whether the ranges cut the blocks from `low` to `high` into pieces: the
/// first starts at `low`, the last ends at `high`, none is empty, and each
/// starts one block after the one before it ends.
pub open spec fn partitions(ranges: Seq<BlockRange>, low: u64, high: u64) -> bool {
    &&& ranges.len() > 0
    &&& ranges[0].from == low
    &&& ranges[ranges.len() - 1].to == high
    &&& forall|i: int| 0 <= i < ranges.len() ==> (#[trigger] ranges[i]).from <= ranges[i].to
    &&& forall|i: int|
        0 <= i < ranges.len() - 1 ==> (#[trigger] ranges[i]).to + 1 == ranges[i + 1].from
}

/// The batches cut the blocks from `from` to `target` into pieces, whatever
/// the batch size, and each batch ends where `batch_end` says.
pub proof fn lemma_batches_partition(from: u64, target: u64, batch_size: u64)
    requires
        from <= target,
    ensures
        partitions(batches(from, target, batch_size), from, target),
        forall|i: int|
            0 <= i < batches(from, target, batch_size).len() ==> (#[trigger] batches(
                from,
                target,
                batch_size,
            )[i]).to == batch_end(batches(from, target, batch_size)[i].from, target, batch_size),
    decreases target - from,
{
    let to = batch_end(from, target, batch_size);
    if to < target {
        let next = (to + 1) as u64;
        lemma_batches_partition(next, target, batch_size);
        let rest = batches(next, target, batch_size);
        let all = batches(from, target, batch_size);
        assert(all =~= seq![BlockRange { from, to }] + rest);
        assert forall|i: int| 0 <= i < all.len() implies (#[trigger] all[i]).from <= all[i].to
            && all[i].to == batch_end(all[i].from, target, batch_size) by {
            if i > 0 {
                assert(all[i] == rest[i - 1]);
            }
        }
        assert forall|i: int| 0 <= i < all.len() - 1 implies (#[trigger] all[i]).to + 1 == all[i
            + 1].from by {
            if i > 0 {
                assert(all[i] == rest[i - 1]);
                assert(all[i + 1] == rest[i]);
            } else {
                assert(all[1] == rest[0]);
            }
        }
    }
}

/// In a partition, an earlier piece ends before a later one starts: no
/// block lies in two pieces.
pub proof fn lemma_partition_no_overlap(ranges: Seq<BlockRange>, low: u64, high: u64, i: int, j: int)
    requires
        partitions(ranges, low, high),
        0 <= i < j < ranges.len(),
    ensures
        ranges[i].to < ranges[j].from,
    decreases j - i,
{
    if j - i > 1 {
        lemma_partition_no_overlap(ranges, low, high, i, j - 1);
        assert(ranges[j - 1].to + 1 == ranges[j].from);
        assert(ranges[j - 1].from <= ranges[j - 1].to);
    } else {
        assert(ranges[i].to + 1 == ranges[i + 1].from);
    }
}

/// In a partition, every piece lies between `low` and `high`.
pub proof fn lemma_partition_within(ranges: Seq<BlockRange>, low: u64, high: u64, i: int)
    requires
        partitions(ranges, low, high),
        0 <= i < ranges.len(),
    ensures
        low <= ranges[i].from,
        ranges[i].to <= high,
{
    if i > 0 {
        lemma_partition_no_overlap(ranges, low, high, 0, i);
        assert(ranges[0].from <= ranges[0].to);
    }
    if i < ranges.len() - 1 {
        lemma_partition_no_overlap(ranges, low, high, i, ranges.len() - 1);
        assert(ranges[ranges.len() - 1].from <= ranges[ranges.len() - 1].to);
    }
}

/// In a partition, every block from `low` to `high` lies in a piece: there
/// is no gap.
pub proof fn lemma_partition_no_gap(ranges: Seq<BlockRange>, low: u64, high: u64, block: u64) -> (i:
    int)
    requires
        partitions(ranges, low, high),
        low <= block <= high,
    ensures
        0 <= i < ranges.len(),
        ranges[i].holds(block),
{
    lemma_find_piece(ranges, low, high, block, ranges.len() - 1)
}

/// A block that lies at or before the end of piece `k` lies in one of the
/// pieces up to `k`.
proof fn lemma_find_piece(ranges: Seq<BlockRange>, low: u64, high: u64, block: u64, k: int) -> (i:
    int)
    requires
        partitions(ranges, low, high),
        0 <= k < ranges.len(),
        low <= block <= ranges[k].to,
    ensures
        0 <= i <= k,
        ranges[i].holds(block),
    decreases k,
{
    if ranges[k].from <= block {
        k
    } else {
        assert(k > 0);
        assert(ranges[k - 1].to + 1 == ranges[k].from);
        lemma_find_piece(ranges, low, high, block, k - 1)
    }
}

/// Whether one of the ranges holds `block`.
pub open spec fn covered(ranges: Seq<BlockRange>, block: u64) -> bool {
    exists|i: int| 0 <= i < ranges.len() && (#[trigger] ranges[i]).holds(block)
}

/// Whatever the batch size, the batches hold every block from `creation` to
/// `target`, no other block, and no block twice.
pub proof fn lemma_batches_cover_once(creation: u64, target: u64, batch_size: u64, block: u64)
    requires
        creation <= target,
    ensures
        covered(batches(creation, target, batch_size), block) <==> creation <= block <= target,
        forall|i: int, j: int|
            0 <= i < j < batches(creation, target, batch_size).len() ==> !(#[trigger] batches(
                creation,
                target,
                batch_size,
            )[i]).holds(block) || !(#[trigger] batches(creation, target, batch_size)[j]).holds(
                block,
            ),
{
    let ranges = batches(creation, target, batch_size);
    lemma_batches_partition(creation, target, batch_size);
    if creation <= block <= target {
        let i = lemma_partition_no_gap(ranges, creation, target, block);
        assert(ranges[i].holds(block));
    }
    if covered(ranges, block) {
        let i = choose|i: int| 0 <= i < ranges.len() && (#[trigger] ranges[i]).holds(block);
        lemma_partition_within(ranges, creation, target, i);
    }
    assert forall|i: int, j: int| 0 <= i < j < ranges.len() implies !(#[trigger] ranges[i]).holds(
        block,
    ) || !(#[trigger] ranges[j]).holds(block) by {
        lemma_partition_no_overlap(ranges, creation, target, i, j);
    }
}

/// The batches to scan, from the contract's creation to the target block:
/// each holds `batch_size` blocks after its first one, but the last, which
/// ends at the target. Together they hold every block from `creation` to
/// `target` once. There is none when `creation` lies beyond `target`, and
/// one when `batch_size` reaches from `creation` to `target`.
pub fn plan_batches(creation: u64, target: u64, batch_size: u64) -> (r: Vec<BlockRange>)
    ensures
        r@ == batches(creation, target, batch_size),
        creation > target ==> r@.len() == 0,
        creation <= target ==> partitions(r@, creation, target),
        creation <= target && batch_size >= target - creation ==> r@.len() == 1,
{
    let mut ranges: Vec<BlockRange> = Vec::new();
    if creation > target {
        return ranges;
    }
    proof {
        lemma_batches_partition(creation, target, batch_size);
    }
    let mut from: u64 = creation;
    loop
        invariant_except_break
            creation <= from <= target,
            ranges@ + batches(from, target, batch_size) == batches(creation, target, batch_size),
        ensures
            ranges@ == batches(creation, target, batch_size),
        decreases target - from,
    {
        let to: u64 = if batch_size <= target - from {
            from + batch_size
        } else {
            target
        };
        assert(to == batch_end(from, target, batch_size));
        let ghost before = ranges@;
        ranges.push(BlockRange { from, to });
        if to >= target {
            assert(ranges@ =~= before + batches(from, target, batch_size));
            break;
        }
        assert(ranges@ + batches((to + 1) as u64, target, batch_size) =~= before + batches(
            from,
            target,
            batch_size,
        ));
        from = to + 1;
    }
    ranges
}

} // verus!

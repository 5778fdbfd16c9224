//! The report on the cost of reward-partition blocks.
use crate::block_cost::count_mismatches;
use crate::block_cost::count_transactions;
use crate::block_cost::is_mismatch;
use crate::block_cost::lemma_bytes_bound;
use crate::block_cost::lemma_mismatches_are_different_counts;
use crate::block_cost::lemma_prefix_bytes;
use crate::block_cost::lemma_prefix_nanos;
use crate::block_cost::no_cost;
use crate::block_cost::sum_bytes;
use crate::block_cost::sum_nanos;
use crate::block_cost::total_bytes;
use crate::block_cost::total_nanos;
use crate::block_cost::total_tx;
use crate::block_cost::BlockCost;
use crate::cost_tables::is_block_listing;
use crate::order::comes_before;
use crate::order::is_stable_order;
use crate::order::lemma_order_covers;
use crate::order::lemma_order_sorts;
use crate::order::lemma_order_unique;
use crate::order::stable_order;
use crate::order::Direction;
use vstd::prelude::*;
use vstd::set_lib::lemma_int_range;
use vstd::set_lib::lemma_len_subset;
use vstd::set_lib::set_int_range;

verus! {

/// One line of the table of caps: what the costliest request reads if a request
/// may name no more than so many addresses.
#[derive(Clone, Copy, Debug, PartialEq, Eq, Structural)]
pub struct CapRow {
    /// The number of partition blocks that are read.
    pub k: usize,
    /// The number of blocks that are read, the epoch-boundary block among them.
    pub blocks_read: usize,
    /// The bytes of these blocks.
    pub bytes: u128,
    /// The time that it takes to deserialize and sanitize their transactions, if
    /// it fits.
    pub nanos: Option<u128>,
    /// The cap lets every partition through.
    pub no_cap: bool,
}

/// All that the report tells.
#[derive(Debug)]
pub struct CostReport {
    pub boundary_slot: u64,
    pub num_partitions: u64,
    /// The partition blocks that were measured, in slot order.
    pub partitions: Vec<BlockCost>,
    /// The cost of the epoch-boundary block.
    pub boundary_cost: BlockCost,
    /// Fewer partition blocks were seen than there are partitions.
    pub incomplete: bool,
    /// The number of partition blocks whose transaction counts disagree.
    pub mismatches: usize,
    /// The transactions of all partition blocks.
    pub total_tx: usize,
    /// The bytes of all partition blocks.
    pub total_bytes: u128,
    /// The time of all partition blocks, if it fits.
    pub total_nanos: Option<u128>,
    /// The partition blocks, the most expensive first.
    pub by_cost: Vec<BlockCost>,
    /// The table of caps.
    pub rows: Vec<CapRow>,
}

/// Why there is no report.
#[derive(Clone, Copy, Debug, PartialEq, Eq, Structural)]
pub enum ReportError {
    /// No epoch-boundary block was seen.
    NoBoundary,
    /// A count does not fit into its type.
    CountOverflow,
}

/// The slots after `boundary_slot` that have a block, in slot order.
pub open spec fn slots_after(blocks: Map<u64, BlockCost>, boundary_slot: u64) -> Seq<u64> {
    Seq::new(
        (u64::MAX - boundary_slot) as nat,
        |i: int| (boundary_slot + 1 + i) as u64,
    ).filter(|slot: u64| blocks.contains_key(slot))
}

/// The costs of the first `num_partitions` blocks after the boundary, in slot
/// order, or of all of them if there are fewer.
pub open spec fn partition_costs(
    blocks: Map<u64, BlockCost>,
    boundary_slot: u64,
    num_partitions: u64,
) -> Seq<BlockCost> {
    let slots = slots_after(blocks, boundary_slot);
    let limit = (num_partitions as usize) as nat;
    let count = if slots.len() < limit {
        slots.len()
    } else {
        limit
    };
    Seq::new(count, |i: int| blocks[slots[i]])
}

/// The cost of the block at `slot`; a block that was not seen costs nothing.
pub open spec fn cost_at(blocks: Map<u64, BlockCost>, slot: u64) -> BlockCost {
    if blocks.contains_key(slot) {
        blocks[slot]
    } else {
        no_cost()
    }
}

/// The times of `costs`.
pub open spec fn nanos_keys(costs: Seq<BlockCost>) -> Seq<u128> {
    Seq::new(costs.len(), |i: int| costs[i].deser_sanitize_nanos)
}

/// `by_cost` is `partitions` arranged by `order`, the most expensive first.
pub open spec fn is_ranked_by(
    partitions: Seq<BlockCost>,
    order: Seq<usize>,
    by_cost: Seq<BlockCost>,
) -> bool {
    &&& is_stable_order(nanos_keys(partitions), Direction::Descending, order)
    &&& by_cost.len() == partitions.len()
    &&& forall|i: int|
        0 <= i < by_cost.len() ==> #[trigger] by_cost[i] == partitions[order[i] as int]
}

/// `by_cost` is `partitions` with the most expensive first; equally expensive
/// blocks keep their order.
pub open spec fn is_ranking(partitions: Seq<BlockCost>, by_cost: Seq<BlockCost>) -> bool {
    exists|order: Seq<usize>| #[trigger] is_ranked_by(partitions, order, by_cost)
}

/// The caps for which the table has a line: some round numbers and, last, the
/// number of partitions.
pub open spec fn caps(num_partitions: u64) -> Seq<usize> {
    seq![16usize, 32, 64, 128, 256, 512, num_partitions as usize]
}

/// The number of lines: up to the first cap that lets every partition through.
pub open spec fn row_count(num_partitions: u64) -> nat {
    if num_partitions <= 16 {
        1
    } else if num_partitions <= 32 {
        2
    } else if num_partitions <= 64 {
        3
    } else if num_partitions <= 128 {
        4
    } else if num_partitions <= 256 {
        5
    } else if num_partitions <= 512 {
        6
    } else {
        7
    }
}

/// The line for one cap: the epoch-boundary block and the most expensive
/// partition blocks, as many as the cap lets through.
pub open spec fn cap_row(
    cap: usize,
    num_partitions: u64,
    boundary_cost: BlockCost,
    by_cost: Seq<BlockCost>,
) -> CapRow {
    let k = if cap < by_cost.len() {
        cap as int
    } else {
        by_cost.len() as int
    };
    CapRow {
        k: k as usize,
        blocks_read: (k + 1) as usize,
        bytes: request_bytes(boundary_cost, by_cost.take(k)) as u128,
        nanos: fitting(request_nanos(boundary_cost, by_cost.take(k))),
        no_cap: cap >= num_partitions,
    }
}

/// The table of caps.
pub open spec fn cap_rows(
    num_partitions: u64,
    boundary_cost: BlockCost,
    by_cost: Seq<BlockCost>,
) -> Seq<CapRow> {
    Seq::new(
        row_count(num_partitions),
        |i: int| cap_row(caps(num_partitions)[i], num_partitions, boundary_cost, by_cost),
    )
}

/// The time of a request that reads the epoch-boundary block and `blocks`.
pub open spec fn request_nanos(boundary_cost: BlockCost, blocks: Seq<BlockCost>) -> nat {
    boundary_cost.deser_sanitize_nanos as nat + total_nanos(blocks)
}

/// The bytes of a request that reads the epoch-boundary block and `blocks`.
pub open spec fn request_bytes(boundary_cost: BlockCost, blocks: Seq<BlockCost>) -> nat {
    boundary_cost.bytes as nat + total_bytes(blocks)
}

/// A time, if it fits into its type.
pub open spec fn fitting(nanos: nat) -> Option<u128> {
    if nanos <= u128::MAX {
        Some(nanos as u128)
    } else {
        None
    }
}

/// `report` tells what `blocks` hold of the partitions after the boundary and of
/// the boundary itself.
pub open spec fn is_report(
    report: CostReport,
    blocks: Map<u64, BlockCost>,
    boundary_slot: u64,
    num_partitions: u64,
) -> bool {
    reports(
        report,
        boundary_slot,
        num_partitions,
        cost_at(blocks, boundary_slot),
        partition_costs(blocks, boundary_slot, num_partitions),
    )
}

/// `report` tells of an epoch-boundary block that costs `boundary_cost` and of
/// `partitions`.
pub open spec fn reports(
    report: CostReport,
    boundary_slot: u64,
    num_partitions: u64,
    boundary_cost: BlockCost,
    partitions: Seq<BlockCost>,
) -> bool {
    &&& report.boundary_slot == boundary_slot
    &&& report.num_partitions == num_partitions
    &&& report.partitions@ == partitions
    &&& report.boundary_cost == boundary_cost
    &&& report.incomplete == (partitions.len() < num_partitions)
    &&& report.mismatches == partitions.filter(|cost: BlockCost| is_mismatch(cost)).len()
    &&& report.total_tx == total_tx(partitions)
    &&& report.total_bytes == total_bytes(partitions)
    &&& report.total_nanos == fitting(total_nanos(partitions))
    &&& is_ranking(partitions, report.by_cost@)
    &&& report.rows@ == cap_rows(num_partitions, report.boundary_cost, report.by_cost@)
}

/// The counts of a report fit into their types.
pub open spec fn counts_fit(partitions: Seq<BlockCost>) -> bool {
    &&& total_tx(partitions) <= usize::MAX
    &&& partitions.len() < usize::MAX
}

/// No two entries are of one slot.
pub open spec fn distinct_slots(entries: Seq<(u64, BlockCost)>) -> bool {
    forall|i: int, j: int|
        0 <= i < j < entries.len() ==> (#[trigger] entries[i]).0 != (#[trigger] entries[j]).0
}

/// Each slot comes before the next.
spec fn ascending(slots: Seq<u64>) -> bool {
    forall|i: int, j: int| 0 <= i < j < slots.len() ==> #[trigger] slots[i] < #[trigger] slots[j]
}

/// Leaving slots out keeps the others in order.
proof fn lemma_filter_ascending(slots: Seq<u64>, keep: spec_fn(u64) -> bool)
    requires
        ascending(slots),
    ensures
        ascending(slots.filter(keep)),
        forall|slot: u64|
            #![trigger slots.filter(keep).contains(slot)]
            slots.filter(keep).contains(slot) <==> slots.contains(slot) && keep(slot),
    decreases slots.len(),
{
    reveal(Seq::filter);
    let kept = slots.filter(keep);
    if slots.len() > 0 {
        let rest = slots.drop_last();
        lemma_filter_ascending(rest, keep);
        let before = rest.filter(keep);
        assert forall|i: int, j: int| 0 <= i < j < kept.len() implies #[trigger] kept[i]
            < #[trigger] kept[j] by {
            assert(kept[i] == before[i]);
            if j < before.len() {
                assert(kept[j] == before[j]);
            } else {
                assert(before.contains(before[i]));
                let k = choose|k: int| 0 <= k < rest.len() && rest[k] == before[i];
                assert(slots[k] < slots[slots.len() - 1]);
            }
        }
        assert forall|slot: u64|
            #![trigger kept.contains(slot)]
            kept.contains(slot) <==> slots.contains(slot) && keep(slot) by {
            if kept.contains(slot) {
                let i = choose|i: int| 0 <= i < kept.len() && kept[i] == slot;
                if i < before.len() {
                    assert(before[i] == slot);
                    assert(before.contains(slot));
                    let k = choose|k: int| 0 <= k < rest.len() && rest[k] == slot;
                    assert(slots[k] == slot);
                } else {
                    assert(slots[slots.len() - 1] == slot);
                }
            }
            if slots.contains(slot) && keep(slot) {
                let k = choose|k: int| 0 <= k < slots.len() && slots[k] == slot;
                if k < rest.len() {
                    assert(rest[k] == slot);
                    assert(before.contains(slot));
                    let i = choose|i: int| 0 <= i < before.len() && before[i] == slot;
                    assert(kept[i] == slot);
                } else {
                    assert(kept[kept.len() - 1] == slot);
                }
            }
        }
    }
}

/// Ascending lists with the same entries are the same list.
proof fn lemma_ascending_same_entries(first: Seq<u64>, second: Seq<u64>)
    requires
        ascending(first),
        ascending(second),
        forall|slot: u64|
            #![trigger first.contains(slot)]
            #![trigger second.contains(slot)]
            first.contains(slot) <==> second.contains(slot),
    ensures
        first == second,
    decreases first.len(),
{
    if first.len() == 0 {
        if second.len() > 0 {
            assert(second.contains(second[0]));
        }
        assert(first =~= second);
    } else {
        assert(first.contains(first.last()));
        let at = choose|k: int| 0 <= k < second.len() && second[k] == first.last();
        assert(second.contains(second.last()));
        let back = choose|k: int| 0 <= k < first.len() && first[k] == second.last();
        assert(first.last() == second.last()) by {
            if at < second.len() - 1 {
                assert(second[at] < second[second.len() - 1]);
            }
            if back < first.len() - 1 {
                assert(first[back] < first[first.len() - 1]);
            }
        }
        assert forall|slot: u64|
            #![trigger first.drop_last().contains(slot)]
            #![trigger second.drop_last().contains(slot)]
            first.drop_last().contains(slot) <==> second.drop_last().contains(slot) by {
            lemma_ascending_drop_last(first, slot);
            lemma_ascending_drop_last(second, slot);
        }
        lemma_ascending_same_entries(first.drop_last(), second.drop_last());
        assert(first =~= first.drop_last().push(first.last()));
        assert(second =~= second.drop_last().push(second.last()));
    }
}

proof fn lemma_ascending_drop_last(slots: Seq<u64>, slot: u64)
    requires
        ascending(slots),
        slots.len() > 0,
    ensures
        slots.drop_last().contains(slot) <==> slots.contains(slot) && slot != slots.last(),
{
    if slots.drop_last().contains(slot) {
        let i = choose|i: int| 0 <= i < slots.len() - 1 && slots.drop_last()[i] == slot;
        assert(slots[i] == slot);
        assert(slots[i] < slots[slots.len() - 1]);
    }
    if slots.contains(slot) && slot != slots.last() {
        let i = choose|i: int| 0 <= i < slots.len() && slots[i] == slot;
        assert(slots.drop_last()[i] == slot);
    }
}

/// The slots after the boundary come in order, and they are those after the
/// boundary that have a block.
pub proof fn lemma_slots_after(blocks: Map<u64, BlockCost>, boundary_slot: u64)
    ensures
        forall|i: int, j: int|
            0 <= i < j < slots_after(blocks, boundary_slot).len() ==> #[trigger] slots_after(
                blocks,
                boundary_slot,
            )[i] < #[trigger] slots_after(blocks, boundary_slot)[j],
        forall|slot: u64| #[trigger]
            slots_after(blocks, boundary_slot).contains(slot) <==> slot > boundary_slot
                && blocks.contains_key(slot),
{
    let later = Seq::new(
        (u64::MAX - boundary_slot) as nat,
        |i: int| (boundary_slot + 1 + i) as u64,
    );
    assert(ascending(later));
    lemma_filter_ascending(later, |slot: u64| blocks.contains_key(slot));
    assert forall|slot: u64| slot > boundary_slot implies later.contains(slot) by {
        assert(later[slot - boundary_slot - 1] == slot);
    }
}

/// An ascending list of the slots after the boundary that have a block is the
/// list of them.
proof fn lemma_is_slots_after(blocks: Map<u64, BlockCost>, boundary_slot: u64, slots: Seq<u64>)
    requires
        ascending(slots),
        forall|slot: u64| #[trigger]
            slots.contains(slot) <==> slot > boundary_slot && blocks.contains_key(slot),
    ensures
        slots == slots_after(blocks, boundary_slot),
{
    lemma_slots_after(blocks, boundary_slot);
    lemma_ascending_same_entries(slots, slots_after(blocks, boundary_slot));
}

/// The partitions are the first blocks after the boundary, in slot order: the
/// one at place `i` is the block at a slot after the boundary with exactly `i`
/// blocks between the boundary and that slot.
pub proof fn lemma_partition_is_next_block(
    blocks: Map<u64, BlockCost>,
    boundary_slot: u64,
    num_partitions: u64,
    i: int,
) -> (slot: u64)
    requires
        0 <= i < partition_costs(blocks, boundary_slot, num_partitions).len(),
    ensures
        slot > boundary_slot,
        blocks.contains_key(slot),
        partition_costs(blocks, boundary_slot, num_partitions)[i] == blocks[slot],
        Set::new(
            |between: u64| boundary_slot < between < slot && blocks.contains_key(between),
        ).finite(),
        Set::new(
            |between: u64| boundary_slot < between < slot && blocks.contains_key(between),
        ).len() == i,
{
    let slots = slots_after(blocks, boundary_slot);
    lemma_slots_after(blocks, boundary_slot);
    let slot = slots[i];
    assert(slots.contains(slot));
    let earlier = slots.take(i);
    let between = Set::new(
        |between: u64| boundary_slot < between < slot && blocks.contains_key(between),
    );
    assert(earlier.no_duplicates()) by {
        assert forall|a: int, b: int|
            0 <= a < earlier.len() && 0 <= b < earlier.len() && a != b implies earlier[a]
            != earlier[b] by {
            if a < b {
                assert(slots[a] < slots[b]);
            } else {
                assert(slots[b] < slots[a]);
            }
        }
    }
    assert forall|other: u64| earlier.to_set().contains(other) <==> between.contains(other) by {
        if earlier.to_set().contains(other) {
            let a = choose|a: int| 0 <= a < earlier.len() && earlier[a] == other;
            assert(slots[a] == other && slots[a] < slots[i]);
            assert(slots.contains(other));
        }
        if between.contains(other) {
            assert(slots.contains(other));
            let a = choose|a: int| 0 <= a < slots.len() && slots[a] == other;
            if a > i {
                assert(slots[i] < slots[a]);
            }
            assert(earlier[a] == other);
        }
    }
    assert(earlier.to_set() =~= between);
    earlier.unique_seq_to_set();
    slot
}

/// There are as many partitions as are asked for, unless fewer blocks lie after
/// the boundary; then all of these are partitions.
pub proof fn lemma_partitions_are_as_many_as_asked(
    blocks: Map<u64, BlockCost>,
    boundary_slot: u64,
    num_partitions: u64,
)
    ensures
        ({
            let after = Set::new(|slot: u64| slot > boundary_slot && blocks.contains_key(slot));
            let asked = num_partitions as usize;
            &&& after.finite()
            &&& partition_costs(blocks, boundary_slot, num_partitions).len() == if asked
                < after.len() {
                asked as nat
            } else {
                after.len()
            }
        }),
{
    let slots = slots_after(blocks, boundary_slot);
    lemma_slots_after(blocks, boundary_slot);
    let after = Set::new(|slot: u64| slot > boundary_slot && blocks.contains_key(slot));
    assert(slots.no_duplicates()) by {
        assert forall|a: int, b: int|
            0 <= a < slots.len() && 0 <= b < slots.len() && a != b implies slots[a] != slots[b] by {
            if a < b {
                assert(slots[a] < slots[b]);
            } else {
                assert(slots[b] < slots[a]);
            }
        }
    }
    assert forall|slot: u64| slots.to_set().contains(slot) <==> after.contains(slot) by {
        assert(slots.to_set().contains(slot) <==> slots.contains(slot));
    }
    assert(slots.to_set() =~= after);
    slots.unique_seq_to_set();
}

/// The boundary block costs what was measured of it, and nothing if it was not
/// measured.
pub proof fn lemma_cost_at_slot(blocks: Map<u64, BlockCost>, slot: u64)
    ensures
        blocks.contains_key(slot) ==> cost_at(blocks, slot) == blocks[slot],
        !blocks.contains_key(slot) ==> {
            &&& cost_at(blocks, slot).tx_count == 0
            &&& cost_at(blocks, slot).reported_tx_count == 0
            &&& cost_at(blocks, slot).bytes == 0
            &&& cost_at(blocks, slot).deser_sanitize_nanos == 0
        },
{
}

/// A ranking has each block once, no block before one that takes longer, and
/// blocks that take equally long in the order in which they stood. The result
/// tells where each block stood.
pub proof fn lemma_ranking_sorts_by_time(partitions: Seq<BlockCost>, by_cost: Seq<BlockCost>) -> (stood:
    Seq<int>)
    requires
        is_ranking(partitions, by_cost),
    ensures
        by_cost.len() == partitions.len(),
        stood.len() == by_cost.len(),
        stood.no_duplicates(),
        forall|i: int|
            0 <= i < by_cost.len() ==> 0 <= #[trigger] stood[i] < partitions.len() && by_cost[i]
                == partitions[stood[i]],
        forall|i: int, j: int|
            0 <= i < j < by_cost.len() ==> (#[trigger] by_cost[i]).deser_sanitize_nanos >= (
            #[trigger] by_cost[j]).deser_sanitize_nanos,
        forall|i: int, j: int|
            0 <= i < j < by_cost.len() && by_cost[i].deser_sanitize_nanos
                == by_cost[j].deser_sanitize_nanos ==> #[trigger] stood[i] < #[trigger] stood[j],
{
    let order = choose|order: Seq<usize>| #[trigger] is_ranked_by(partitions, order, by_cost);
    let keys = nanos_keys(partitions);
    let stood = Seq::new(order.len(), |i: int| order[i] as int);
    lemma_order_sorts(keys, Direction::Descending, order);
    assert forall|i: int| 0 <= i < by_cost.len() implies 0 <= #[trigger] stood[i] < partitions.len()
        && by_cost[i] == partitions[stood[i]] && keys[stood[i]]
        == by_cost[i].deser_sanitize_nanos by {
        assert(by_cost[i] == partitions[order[i] as int]);
    }
    assert forall|i: int, j: int| 0 <= i < j < by_cost.len() implies (
    #[trigger] by_cost[i]).deser_sanitize_nanos >= (#[trigger] by_cost[j]).deser_sanitize_nanos by {
        assert(stood[i] == order[i] && stood[j] == order[j]);
    }
    assert forall|i: int, j: int|
        0 <= i < j < by_cost.len() && by_cost[i].deser_sanitize_nanos
            == by_cost[j].deser_sanitize_nanos implies #[trigger] stood[i] < #[trigger] stood[j] by {
        assert(stood[i] == order[i] && stood[j] == order[j]);
    }
    assert(stood.no_duplicates()) by {
        assert forall|i: int, j: int|
            0 <= i < stood.len() && 0 <= j < stood.len() && i != j implies stood[i] != stood[j] by {
            if i < j {
                assert(order[i] != order[j]);
            } else {
                assert(order[j] != order[i]);
            }
        }
    }
    stood
}

/// A list of blocks has one ranking only.
pub proof fn lemma_ranking_unique(
    partitions: Seq<BlockCost>,
    first: Seq<BlockCost>,
    second: Seq<BlockCost>,
)
    requires
        is_ranking(partitions, first),
        is_ranking(partitions, second),
    ensures
        first == second,
{
    let order = choose|order: Seq<usize>| #[trigger] is_ranked_by(partitions, order, first);
    let other = choose|order: Seq<usize>| #[trigger] is_ranked_by(partitions, order, second);
    lemma_order_unique(nanos_keys(partitions), Direction::Descending, order, other);
    assert(first =~= second);
}

/// The blocks at chosen places are the blocks that stand there.
pub proof fn lemma_blocks_at_places(partitions: Seq<BlockCost>, chosen: Seq<int>)
    ensures
        blocks_at(partitions, chosen) == chosen.map_values(|place: int| partitions[place]),
{
}

/// The blocks of `partitions` at the places `chosen`.
pub open spec fn blocks_at(partitions: Seq<BlockCost>, chosen: Seq<int>) -> Seq<BlockCost> {
    Seq::new(chosen.len(), |i: int| partitions[chosen[i]])
}

/// Whichever partition blocks a request under a cap reads, they take no longer
/// than the most expensive ones, as many as the cap lets through.
pub proof fn lemma_worst_case(
    partitions: Seq<BlockCost>,
    by_cost: Seq<BlockCost>,
    chosen: Seq<int>,
    cap: int,
)
    requires
        is_ranking(partitions, by_cost),
        chosen.no_duplicates(),
        forall|i: int| 0 <= i < chosen.len() ==> 0 <= #[trigger] chosen[i] < partitions.len(),
        chosen.len() <= cap,
    ensures
        total_nanos(blocks_at(partitions, chosen)) <= total_nanos(
            by_cost.take(
                if cap < by_cost.len() {
                    cap
                } else {
                    by_cost.len() as int
                },
            ),
        ),
{
    let order = choose|order: Seq<usize>| #[trigger] is_ranked_by(partitions, order, by_cost);
    let keys = nanos_keys(partitions);
    let places = Seq::new(
        chosen.len(),
        |i: int| choose|p: int| 0 <= p < order.len() && order[p] == chosen[i],
    );
    assert forall|i: int| 0 <= i < chosen.len() implies 0 <= #[trigger] places[i] < order.len()
        && order[places[i]] == chosen[i] by {
        lemma_order_covers(keys, Direction::Descending, order, chosen[i]);
    }
    assert(places.no_duplicates()) by {
        assert forall|i: int, j: int|
            0 <= i < places.len() && 0 <= j < places.len() && i != j implies places[i]
            != places[j] by {
            assert(order[places[i]] == chosen[i]);
            assert(order[places[j]] == chosen[j]);
        }
    }
    assert(blocks_at(partitions, chosen) =~= blocks_at(by_cost, places));
    assert forall|i: int, j: int| 0 <= i < j < by_cost.len() implies (
    #[trigger] by_cost[i]).deser_sanitize_nanos >= (#[trigger] by_cost[j]).deser_sanitize_nanos by {
        assert(comes_before(keys, Direction::Descending, order[i] as int, order[j] as int));
        assert(keys[order[i] as int] == by_cost[i].deser_sanitize_nanos);
        assert(keys[order[j] as int] == by_cost[j].deser_sanitize_nanos);
    }
    lemma_top_is_most(by_cost, places);
    lemma_prefix_nanos(
        by_cost,
        chosen.len() as int,
        if cap < by_cost.len() {
            cap
        } else {
            by_cost.len() as int
        },
    );
}

/// In a descending list, no choice of places outweighs as many places at the
/// top.
proof fn lemma_top_is_most(costs: Seq<BlockCost>, places: Seq<int>)
    requires
        forall|i: int, j: int|
            0 <= i < j < costs.len() ==> (#[trigger] costs[i]).deser_sanitize_nanos >= (
            #[trigger] costs[j]).deser_sanitize_nanos,
        places.no_duplicates(),
        forall|i: int| 0 <= i < places.len() ==> 0 <= #[trigger] places[i] < costs.len(),
    ensures
        places.len() <= costs.len(),
        total_nanos(blocks_at(costs, places)) <= total_nanos(costs.take(places.len() as int)),
    decreases places.len(),
{
    if places.len() > 0 {
        let m = places.len() as int;
        let x = lemma_highest_place(places);
        lemma_places_bound(places, places[x]);
        let rest = places.remove(x);
        assert(rest.no_duplicates()) by {
            assert forall|i: int, j: int|
                0 <= i < rest.len() && 0 <= j < rest.len() && i != j implies rest[i] != rest[j] by {
                let from = |k: int| if k < x { k } else { k + 1 };
                assert(rest[i] == places[from(i)]);
                assert(rest[j] == places[from(j)]);
            }
        }
        assert forall|i: int| 0 <= i < rest.len() implies 0 <= #[trigger] rest[i] < costs.len() by {
            let from = |k: int| if k < x { k } else { k + 1 };
            assert(rest[i] == places[from(i)]);
        }
        lemma_top_is_most(costs, rest);
        let hit = blocks_at(costs, places);
        lemma_remove_block(hit, x);
        assert(hit.remove(x) =~= blocks_at(costs, rest));
        assert(costs.take(m).drop_last() =~= costs.take(m - 1));
        assert(places[x] >= m - 1);
        assert(costs[places[x]].deser_sanitize_nanos <= costs[m - 1].deser_sanitize_nanos) by {
            if places[x] > m - 1 {
                assert(costs[m - 1].deser_sanitize_nanos >= costs[places[x]].deser_sanitize_nanos);
            }
        }
    } else {
        assert(blocks_at(costs, places) =~= Seq::<BlockCost>::empty());
    }
}

/// The index of the highest place.
proof fn lemma_highest_place(places: Seq<int>) -> (x: int)
    requires
        places.len() > 0,
    ensures
        0 <= x < places.len(),
        forall|i: int| 0 <= i < places.len() ==> #[trigger] places[i] <= places[x],
    decreases places.len(),
{
    if places.len() == 1 {
        0
    } else {
        let rest = places.drop_last();
        let x = lemma_highest_place(rest);
        let best = if places.last() > rest[x] {
            places.len() - 1
        } else {
            x
        };
        assert forall|i: int| 0 <= i < places.len() implies #[trigger] places[i] <= places[best] by {
            if i < rest.len() {
                assert(rest[i] <= rest[x]);
            }
        }
        best
    }
}

/// Distinct places up to `highest` are no more than there are such places.
proof fn lemma_places_bound(places: Seq<int>, highest: int)
    requires
        places.no_duplicates(),
        highest >= 0,
        forall|i: int| 0 <= i < places.len() ==> 0 <= #[trigger] places[i] <= highest,
    ensures
        places.len() <= highest + 1,
{
    places.unique_seq_to_set();
    lemma_int_range(0, highest + 1);
    assert(places.to_set().subset_of(set_int_range(0, highest + 1)));
    lemma_len_subset(places.to_set(), set_int_range(0, highest + 1));
}

proof fn lemma_remove_block(costs: Seq<BlockCost>, x: int)
    requires
        0 <= x < costs.len(),
    ensures
        total_nanos(costs) == total_nanos(costs.remove(x)) + costs[x].deser_sanitize_nanos,
        total_bytes(costs) == total_bytes(costs.remove(x)) + costs[x].bytes,
    decreases costs.len(),
{
    if x == costs.len() - 1 {
        assert(costs.remove(x) =~= costs.drop_last());
    } else {
        lemma_remove_block(costs.drop_last(), x);
        assert(costs.remove(x).drop_last() =~= costs.drop_last().remove(x));
        assert(costs.remove(x).last() == costs.last());
    }
}

/// A request that names the right addresses does take as long: the most
/// expensive blocks stand at different places of `partitions`.
pub proof fn lemma_worst_case_is_reached(
    partitions: Seq<BlockCost>,
    by_cost: Seq<BlockCost>,
    cap: int,
) -> (chosen: Seq<int>)
    requires
        is_ranking(partitions, by_cost),
        0 <= cap <= by_cost.len(),
    ensures
        chosen.len() == cap,
        chosen.no_duplicates(),
        forall|i: int| 0 <= i < chosen.len() ==> 0 <= #[trigger] chosen[i] < partitions.len(),
        blocks_at(partitions, chosen) == by_cost.take(cap),
{
    let order = choose|order: Seq<usize>| #[trigger] is_ranked_by(partitions, order, by_cost);
    let chosen = Seq::new(cap as nat, |i: int| order[i] as int);
    assert(chosen.no_duplicates()) by {
        assert forall|i: int, j: int|
            0 <= i < chosen.len() && 0 <= j < chosen.len() && i != j implies chosen[i]
            != chosen[j] by {
            if i < j {
                assert(comes_before(
                    nanos_keys(partitions),
                    Direction::Descending,
                    order[i] as int,
                    order[j] as int,
                ));
            } else {
                assert(comes_before(
                    nanos_keys(partitions),
                    Direction::Descending,
                    order[j] as int,
                    order[i] as int,
                ));
            }
        }
    }
    assert(blocks_at(partitions, chosen) =~= by_cost.take(cap));
    chosen
}

/// All blocks in another order have the same time and the same bytes together.
proof fn lemma_arranged_totals(costs: Seq<BlockCost>, places: Seq<int>)
    requires
        places.no_duplicates(),
        forall|i: int| 0 <= i < places.len() ==> 0 <= #[trigger] places[i] < costs.len(),
        places.len() == costs.len(),
    ensures
        total_nanos(blocks_at(costs, places)) == total_nanos(costs),
        total_bytes(blocks_at(costs, places)) == total_bytes(costs),
    decreases costs.len(),
{
    let last = costs.len() - 1;
    let arranged = blocks_at(costs, places);
    if costs.len() == 0 {
        assert(arranged =~= costs);
    } else {
        assert(places.contains(last)) by {
            if !places.contains(last) {
                assert forall|i: int| 0 <= i < places.len() implies 0 <= #[trigger] places[i]
                    <= last - 1 by {
                    assert(places.contains(places[i]));
                }
                assert(0 <= places[0]);
                lemma_places_bound(places, last - 1);
            }
        }
        let x = choose|x: int| 0 <= x < places.len() && places[x] == last;
        let rest = places.remove(x);
        let from = |k: int| if k < x { k } else { k + 1 };
        assert(rest.no_duplicates()) by {
            assert forall|i: int, j: int|
                0 <= i < rest.len() && 0 <= j < rest.len() && i != j implies rest[i] != rest[j] by {
                assert(rest[i] == places[from(i)]);
                assert(rest[j] == places[from(j)]);
            }
        }
        assert forall|i: int| 0 <= i < rest.len() implies 0 <= #[trigger] rest[i]
            < costs.drop_last().len() by {
            assert(rest[i] == places[from(i)]);
        }
        lemma_arranged_totals(costs.drop_last(), rest);
        lemma_remove_block(arranged, x);
        assert(arranged.remove(x) =~= blocks_at(costs.drop_last(), rest));
    }
}

/// Ranking blocks changes neither their time nor their bytes.
pub proof fn lemma_ranking_keeps_total(partitions: Seq<BlockCost>, by_cost: Seq<BlockCost>)
    requires
        is_ranking(partitions, by_cost),
    ensures
        by_cost.len() == partitions.len(),
        total_nanos(by_cost) == total_nanos(partitions),
        total_bytes(by_cost) == total_bytes(partitions),
{
    let n = by_cost.len() as int;
    let chosen = lemma_worst_case_is_reached(partitions, by_cost, n);
    lemma_arranged_totals(partitions, chosen);
    assert(by_cost.take(n) =~= by_cost);
}

/// The bytes of a request that reads fewer blocks than can be counted fit into
/// their type.
proof fn lemma_request_bytes_fit(boundary_cost: BlockCost, blocks: Seq<BlockCost>)
    requires
        blocks.len() < usize::MAX,
    ensures
        request_bytes(boundary_cost, blocks) <= u128::MAX,
{
    lemma_bytes_bound(blocks);
    let n = blocks.len();
    assert(n * usize::MAX + usize::MAX <= u128::MAX) by (nonlinear_arith)
        requires
            n < usize::MAX,
    ;
}

/// The table has a line for each of the caps 16, 32, 64, 128, 256 and 512 that
/// lies below the number of partitions, and one more.
pub proof fn lemma_table_has_lines(
    num_partitions: u64,
    boundary_cost: BlockCost,
    by_cost: Seq<BlockCost>,
)
    ensures
        cap_rows(num_partitions, boundary_cost, by_cost).len() == seq![
            16u64,
            32,
            64,
            128,
            256,
            512,
        ].filter(|cap: u64| cap < num_partitions).len() + 1,
{
    let below = |cap: u64| cap < num_partitions;
    let shown = seq![16u64, 32, 64, 128, 256, 512];
    reveal(Seq::filter);
    assert(shown.drop_last() =~= seq![16u64, 32, 64, 128, 256]);
    assert(seq![16u64, 32, 64, 128, 256].drop_last() =~= seq![16u64, 32, 64, 128]);
    assert(seq![16u64, 32, 64, 128].drop_last() =~= seq![16u64, 32, 64]);
    assert(seq![16u64, 32, 64].drop_last() =~= seq![16u64, 32]);
    assert(seq![16u64, 32].drop_last() =~= seq![16u64]);
    assert(seq![16u64].drop_last() =~= Seq::<u64>::empty());
    assert(Seq::<u64>::empty().filter(below).len() == 0);
    assert(seq![16u64].filter(below).len() == if 16 < num_partitions {
        1nat
    } else {
        0
    });
    assert(seq![16u64, 32].filter(below).len() == seq![16u64].filter(below).len() + if 32
        < num_partitions {
        1nat
    } else {
        0
    });
    assert(seq![16u64, 32, 64].filter(below).len() == seq![16u64, 32].filter(below).len() + if 64
        < num_partitions {
        1nat
    } else {
        0
    });
    assert(seq![16u64, 32, 64, 128].filter(below).len() == seq![16u64, 32, 64].filter(below).len()
        + if 128 < num_partitions {
        1nat
    } else {
        0
    });
    assert(seq![16u64, 32, 64, 128, 256].filter(below).len() == seq![16u64, 32, 64, 128].filter(
        below,
    ).len() + if 256 < num_partitions {
        1nat
    } else {
        0
    });
}

/// A line reads the boundary block and the first blocks of the ranking, as many
/// as its cap lets through and no more than there are. Its bytes are those of
/// the boundary block plus those of each of these blocks, and so is its time, if
/// the sum fits.
pub proof fn lemma_line_adds_up(
    num_partitions: u64,
    boundary_cost: BlockCost,
    by_cost: Seq<BlockCost>,
    row: int,
)
    requires
        by_cost.len() < usize::MAX,
        0 <= row < cap_rows(num_partitions, boundary_cost, by_cost).len(),
    ensures
        ({
            let line = cap_rows(num_partitions, boundary_cost, by_cost)[row];
            let cap = seq![16usize, 32, 64, 128, 256, 512, num_partitions as usize][row];
            let read = by_cost.take(line.k as int);
            let nanos = boundary_cost.deser_sanitize_nanos + total_nanos(read);
            &&& line.k == cap || line.k == by_cost.len()
            &&& line.k <= cap && line.k <= by_cost.len()
            &&& line.blocks_read == line.k + 1
            &&& line.bytes == boundary_cost.bytes + total_bytes(read)
            &&& nanos <= u128::MAX ==> line.nanos == Some(nanos as u128)
            &&& nanos > u128::MAX ==> line.nanos is None
            &&& line.no_cap <==> cap >= num_partitions
        }),
{
    let line = cap_rows(num_partitions, boundary_cost, by_cost)[row];
    lemma_request_bytes_fit(boundary_cost, by_cost.take(line.k as int));
}

/// The line without a cap reads the boundary block and every partition block, so
/// its time is that of the boundary block plus that of all of them.
pub proof fn lemma_last_line_adds_up_all(
    report: CostReport,
    blocks: Map<u64, BlockCost>,
    boundary_slot: u64,
    num_partitions: u64,
)
    requires
        num_partitions <= usize::MAX,
        counts_fit(partition_costs(blocks, boundary_slot, num_partitions)),
        is_report(report, blocks, boundary_slot, num_partitions),
    ensures
        report.rows@.len() > 0,
        report.rows@.last().k == report.partitions@.len(),
        report.rows@.last().blocks_read == report.partitions@.len() + 1,
        report.rows@.last().bytes == report.boundary_cost.bytes + total_bytes(report.partitions@),
        ({
            let nanos = report.boundary_cost.deser_sanitize_nanos + total_nanos(report.partitions@);
            &&& nanos <= u128::MAX ==> report.rows@.last().nanos == Some(nanos as u128)
            &&& nanos > u128::MAX ==> report.rows@.last().nanos is None
        }),
{
    lemma_table_ends_without_cap(report, blocks, boundary_slot, num_partitions);
    let by_cost = report.by_cost@;
    lemma_ranking_keeps_total(report.partitions@, by_cost);
    assert(by_cost.take(by_cost.len() as int) =~= by_cost);
    lemma_line_adds_up(
        num_partitions,
        report.boundary_cost,
        by_cost,
        report.rows@.len() - 1,
    );
}

/// What a report tells of its partitions: whether there are fewer than there
/// should be, of how many the transaction counts disagree, and all their
/// transactions, bytes and time together.
pub proof fn lemma_report_sums_up_partitions(
    report: CostReport,
    blocks: Map<u64, BlockCost>,
    boundary_slot: u64,
    num_partitions: u64,
)
    requires
        is_report(report, blocks, boundary_slot, num_partitions),
    ensures
        report.boundary_slot == boundary_slot,
        report.num_partitions == num_partitions,
        report.partitions@ == partition_costs(blocks, boundary_slot, num_partitions),
        report.boundary_cost == cost_at(blocks, boundary_slot),
        report.incomplete <==> report.partitions@.len() < num_partitions,
        report.mismatches == report.partitions@.filter(
            |cost: BlockCost| cost.tx_count != cost.reported_tx_count,
        ).len(),
        report.total_tx == total_tx(report.partitions@),
        report.total_bytes == total_bytes(report.partitions@),
        total_nanos(report.partitions@) <= u128::MAX ==> report.total_nanos == Some(
            total_nanos(report.partitions@) as u128,
        ),
        total_nanos(report.partitions@) > u128::MAX ==> report.total_nanos is None,
        is_ranking(report.partitions@, report.by_cost@),
        report.rows@ == cap_rows(num_partitions, report.boundary_cost, report.by_cost@),
{
    lemma_mismatches_are_different_counts(report.partitions@);
}

/// A report has its counts unless there are more transactions, or more blocks to
/// read, than can be counted.
pub proof fn lemma_counts_that_fit(partitions: Seq<BlockCost>)
    ensures
        counts_fit(partitions) <==> total_tx(partitions) <= usize::MAX && partitions.len() + 1
            <= usize::MAX,
{
}

/// A line of the table tells the costliest request under its cap: no choice of
/// partition blocks within the cap takes longer than the blocks of which the
/// line tells the number, the bytes and the time.
pub proof fn lemma_row_is_worst_case(
    report: CostReport,
    blocks: Map<u64, BlockCost>,
    boundary_slot: u64,
    num_partitions: u64,
    row: int,
    chosen: Seq<int>,
) -> (worst: Seq<int>)
    requires
        counts_fit(partition_costs(blocks, boundary_slot, num_partitions)),
        is_report(report, blocks, boundary_slot, num_partitions),
        0 <= row < report.rows@.len(),
        chosen.no_duplicates(),
        forall|i: int|
            0 <= i < chosen.len() ==> 0 <= #[trigger] chosen[i] < report.partitions@.len(),
        chosen.len() <= caps(num_partitions)[row],
    ensures
        request_nanos(report.boundary_cost, blocks_at(report.partitions@, chosen))
            <= request_nanos(report.boundary_cost, blocks_at(report.partitions@, worst)),
        worst.no_duplicates(),
        forall|i: int|
            0 <= i < worst.len() ==> 0 <= #[trigger] worst[i] < report.partitions@.len(),
        worst.len() == report.rows@[row].k <= caps(num_partitions)[row],
        report.rows@[row].blocks_read == worst.len() + 1,
        report.rows@[row].nanos == fitting(
            request_nanos(report.boundary_cost, blocks_at(report.partitions@, worst)),
        ),
        report.rows@[row].bytes == request_bytes(
            report.boundary_cost,
            blocks_at(report.partitions@, worst),
        ),
        report.boundary_cost.deser_sanitize_nanos + total_nanos(
            blocks_at(report.partitions@, worst),
        ) <= u128::MAX ==> report.rows@[row].nanos == Some(
            (report.boundary_cost.deser_sanitize_nanos + total_nanos(
                blocks_at(report.partitions@, worst),
            )) as u128,
        ),
        report.rows@[row].nanos matches Some(nanos)
            ==> report.boundary_cost.deser_sanitize_nanos + total_nanos(
            blocks_at(report.partitions@, chosen),
        ) <= nanos,
{
    let cap = caps(num_partitions)[row];
    let by_cost = report.by_cost@;
    lemma_ranking_keeps_total(report.partitions@, by_cost);
    let k = if cap < by_cost.len() {
        cap as int
    } else {
        by_cost.len() as int
    };
    lemma_worst_case(report.partitions@, by_cost, chosen, cap as int);
    lemma_request_bytes_fit(report.boundary_cost, by_cost.take(k));
    lemma_worst_case_is_reached(report.partitions@, by_cost, k)
}

/// How many of `measured` partition blocks the cap of a line lets through.
spec fn let_through(num_partitions: u64, measured: nat, row: int) -> int {
    let cap = caps(num_partitions)[row];
    if cap < measured {
        cap as int
    } else {
        measured as int
    }
}

/// The caps of the lines go up, and only the last reaches the number of
/// partitions.
proof fn lemma_caps_go_up(num_partitions: u64, measured: nat, i: int, j: int)
    requires
        num_partitions <= usize::MAX,
        measured <= num_partitions,
        0 <= i <= j < row_count(num_partitions),
    ensures
        0 <= let_through(num_partitions, measured, i) <= let_through(num_partitions, measured, j)
            <= measured,
        caps(num_partitions)[i] >= num_partitions <==> i == row_count(num_partitions) - 1,
        i == row_count(num_partitions) - 1 ==> let_through(num_partitions, measured, i) == measured,
{
    assert(num_partitions as usize == num_partitions);
}

/// What a line tells, as far as it depends on the blocks.
proof fn lemma_row_reads(
    report: CostReport,
    blocks: Map<u64, BlockCost>,
    boundary_slot: u64,
    num_partitions: u64,
    row: int,
)
    requires
        counts_fit(partition_costs(blocks, boundary_slot, num_partitions)),
        is_report(report, blocks, boundary_slot, num_partitions),
        0 <= row < report.rows@.len(),
    ensures
        ({
            let k = let_through(num_partitions, report.by_cost@.len(), row);
            let read = report.by_cost@.take(k);
            &&& report.rows@[row].k == k
            &&& report.rows@[row].bytes == request_bytes(report.boundary_cost, read)
            &&& report.rows@[row].nanos == fitting(request_nanos(report.boundary_cost, read))
            &&& report.rows@[row].no_cap == (caps(num_partitions)[row] >= num_partitions)
        }),
{
    lemma_ranking_keeps_total(report.partitions@, report.by_cost@);
    let k = let_through(num_partitions, report.by_cost@.len(), row);
    lemma_request_bytes_fit(report.boundary_cost, report.by_cost@.take(k));
}

/// The last line of the table, and no other, is the one without a cap. It reads
/// every partition block that was measured, so its bytes and its time are those
/// of all of them. No line has fewer bytes or takes less time than the line
/// before it.
pub proof fn lemma_table_ends_without_cap(
    report: CostReport,
    blocks: Map<u64, BlockCost>,
    boundary_slot: u64,
    num_partitions: u64,
)
    requires
        num_partitions <= usize::MAX,
        counts_fit(partition_costs(blocks, boundary_slot, num_partitions)),
        is_report(report, blocks, boundary_slot, num_partitions),
    ensures
        report.rows@.len() > 0,
        forall|i: int|
            0 <= i < report.rows@.len() ==> (#[trigger] report.rows@[i]).no_cap == (i
                == report.rows@.len() - 1),
        report.rows@.last().k == report.partitions@.len(),
        report.rows@.last().bytes == report.boundary_cost.bytes + report.total_bytes,
        report.rows@.last().nanos == fitting(
            request_nanos(report.boundary_cost, report.partitions@),
        ),
        forall|i: int, j: int|
            0 <= i <= j < report.rows@.len() ==> (#[trigger] report.rows@[i]).k <= (
            #[trigger] report.rows@[j]).k && report.rows@[i].bytes <= report.rows@[j].bytes,
        forall|i: int, j: int|
            0 <= i <= j < report.rows@.len() ==> match (#[trigger] report.rows@[j]).nanos {
                Some(more) => (#[trigger] report.rows@[i]).nanos matches Some(less) && less <= more,
                None => true,
            },
{
    let by_cost = report.by_cost@;
    let n = by_cost.len();
    lemma_ranking_keeps_total(report.partitions@, by_cost);
    assert(by_cost.take(n as int) =~= by_cost);
    assert(n <= num_partitions);
    let last = report.rows@.len() - 1;
    lemma_caps_go_up(num_partitions, n, last, last);
    lemma_row_reads(report, blocks, boundary_slot, num_partitions, last);
    assert forall|i: int| 0 <= i < report.rows@.len() implies (#[trigger] report.rows@[i]).no_cap
        == (i == report.rows@.len() - 1) by {
        lemma_caps_go_up(num_partitions, n, i, i);
        lemma_row_reads(report, blocks, boundary_slot, num_partitions, i);
    }
    assert forall|i: int, j: int| 0 <= i <= j < report.rows@.len() implies (
    #[trigger] report.rows@[i]).k <= (#[trigger] report.rows@[j]).k && report.rows@[i].bytes
        <= report.rows@[j].bytes by {
        lemma_rows_grow(report, blocks, boundary_slot, num_partitions, i, j);
    }
    assert forall|i: int, j: int| 0 <= i <= j < report.rows@.len() implies match (
    #[trigger] report.rows@[j]).nanos {
        Some(more) => (#[trigger] report.rows@[i]).nanos matches Some(less) && less <= more,
        None => true,
    } by {
        lemma_rows_grow(report, blocks, boundary_slot, num_partitions, i, j);
    }
}

/// No line reads less than an earlier one.
proof fn lemma_rows_grow(
    report: CostReport,
    blocks: Map<u64, BlockCost>,
    boundary_slot: u64,
    num_partitions: u64,
    i: int,
    j: int,
)
    requires
        num_partitions <= usize::MAX,
        counts_fit(partition_costs(blocks, boundary_slot, num_partitions)),
        is_report(report, blocks, boundary_slot, num_partitions),
        0 <= i <= j < report.rows@.len(),
    ensures
        report.rows@[i].k <= report.rows@[j].k,
        report.rows@[i].bytes <= report.rows@[j].bytes,
        match report.rows@[j].nanos {
            Some(more) => report.rows@[i].nanos matches Some(less) && less <= more,
            None => true,
        },
{
    let by_cost = report.by_cost@;
    let n = by_cost.len();
    lemma_ranking_keeps_total(report.partitions@, by_cost);
    lemma_caps_go_up(num_partitions, n, i, j);
    lemma_row_reads(report, blocks, boundary_slot, num_partitions, i);
    lemma_row_reads(report, blocks, boundary_slot, num_partitions, j);
    let less = let_through(num_partitions, n, i);
    let more = let_through(num_partitions, n, j);
    lemma_prefix_bytes(by_cost, less, more);
    lemma_prefix_nanos(by_cost, less, more);
}

/// The costs of the first `num_partitions` blocks after the boundary, in slot
/// order. The entries may come in any order.
pub fn select_partitions(
    entries: &Vec<(u64, BlockCost)>,
    boundary_slot: u64,
    num_partitions: u64,
) -> (partitions: Vec<BlockCost>)
    requires
        distinct_slots(entries@),
    ensures
        forall|blocks: Map<u64, BlockCost>| #[trigger]
            is_block_listing(entries@, blocks) ==> partitions@ == partition_costs(
                blocks,
                boundary_slot,
                num_partitions,
            ),
{
    let mut later: Vec<(u64, BlockCost)> = Vec::new();
    let mut keys: Vec<u128> = Vec::new();
    let ghost mut picked: Seq<int> = Seq::empty();
    let mut i: usize = 0;
    while i < entries.len()
        invariant
            i <= entries@.len(),
            keys@.len() == later@.len(),
            picked.len() == later@.len(),
            forall|p: int| 0 <= p < later@.len() ==> #[trigger] keys@[p] == later@[p].0,
            forall|p: int|
                0 <= p < later@.len() ==> 0 <= #[trigger] picked[p] < i && later@[p]
                    == entries@[picked[p]] && later@[p].0 > boundary_slot,
            forall|p: int, q: int|
                0 <= p < q < later@.len() ==> #[trigger] picked[p] < #[trigger] picked[q],
            forall|e: int|
                0 <= e < i && (#[trigger] entries@[e]).0 > boundary_slot ==> picked.contains(e),
        decreases entries@.len() - i,
    {
        let ghost before = picked;
        if entries[i].0 > boundary_slot {
            later.push(entries[i]);
            keys.push(entries[i].0 as u128);
            proof {
                picked = picked.push(i as int);
                assert(picked[picked.len() - 1] == i);
                assert forall|e: int| before.contains(e) implies picked.contains(e) by {
                    let p = choose|p: int| 0 <= p < before.len() && before[p] == e;
                    assert(picked[p] == e);
                }
            }
        }
        i += 1;
    }
    let order = stable_order(&keys, Direction::Ascending);
    let limit: usize = num_partitions as usize;
    let count: usize = if order.len() < limit {
        order.len()
    } else {
        limit
    };
    let mut partitions: Vec<BlockCost> = Vec::new();
    let mut j: usize = 0;
    while j < count
        invariant
            j <= count <= order@.len(),
            order@.len() == later@.len(),
            forall|p: int| 0 <= p < order@.len() ==> 0 <= #[trigger] order@[p] < later@.len(),
            partitions@.len() == j,
            forall|p: int|
                0 <= p < j ==> #[trigger] partitions@[p] == later@[order@[p] as int].1,
        decreases count - j,
    {
        partitions.push(later[order[j]].1);
        j += 1;
    }
    proof {
        let slots = Seq::new(order@.len(), |p: int| later@[order@[p] as int].0);
        assert forall|p: int, q: int| 0 <= p < q < slots.len() implies #[trigger] slots[p]
            < #[trigger] slots[q] by {
            let a = order@[p] as int;
            let b = order@[q] as int;
            assert(comes_before(keys@, Direction::Ascending, a, b));
            assert(keys@[a] == later@[a].0 && keys@[b] == later@[b].0);
            assert(later@[a] == entries@[picked[a]] && later@[b] == entries@[picked[b]]);
            if a < b {
                assert(picked[a] < picked[b]);
            } else {
                assert(picked[b] < picked[a]);
            }
        }
        assert forall|blocks: Map<u64, BlockCost>| #[trigger]
            is_block_listing(entries@, blocks) implies partitions@ == partition_costs(
            blocks,
            boundary_slot,
            num_partitions,
        ) by {
            assert forall|slot: u64| #[trigger] slots.contains(slot) <==> slot > boundary_slot
                && blocks.contains_key(slot) by {
                if slots.contains(slot) {
                    let p = choose|p: int| 0 <= p < slots.len() && slots[p] == slot;
                    let a = order@[p] as int;
                    assert(later@[a] == entries@[picked[a]]);
                }
                if slot > boundary_slot && blocks.contains_key(slot) {
                    let e = choose|e: int| 0 <= e < entries@.len() && (#[trigger] entries@[e]).0 == slot;
                    assert(picked.contains(e));
                    let a = choose|a: int| 0 <= a < picked.len() && picked[a] == e;
                    assert(later@[a] == entries@[picked[a]]);
                    lemma_order_covers(keys@, Direction::Ascending, order@, a);
                    let p = choose|p: int| 0 <= p < order@.len() && order@[p] == a;
                    assert(slots[p] == slot);
                }
            }
            lemma_is_slots_after(blocks, boundary_slot, slots);
            assert forall|p: int| 0 <= p < partitions@.len() implies #[trigger] partitions@[p]
                == blocks[slots[p]] by {
                let a = order@[p] as int;
                assert(later@[a] == entries@[picked[a]]);
            }
            assert(partitions@ =~= partition_costs(blocks, boundary_slot, num_partitions));
        }
    }
    partitions
}

/// The partition blocks with the most expensive first.
pub fn rank_by_cost(partitions: &Vec<BlockCost>) -> (by_cost: Vec<BlockCost>)
    ensures
        is_ranking(partitions@, by_cost@),
{
    let mut keys: Vec<u128> = Vec::new();
    let mut i: usize = 0;
    while i < partitions.len()
        invariant
            i <= partitions@.len(),
            keys@.len() == i,
            forall|p: int|
                0 <= p < i ==> #[trigger] keys@[p] == partitions@[p].deser_sanitize_nanos,
        decreases partitions@.len() - i,
    {
        keys.push(partitions[i].deser_sanitize_nanos);
        i += 1;
    }
    let order = stable_order(&keys, Direction::Descending);
    let mut by_cost: Vec<BlockCost> = Vec::new();
    let mut j: usize = 0;
    while j < order.len()
        invariant
            j <= order@.len(),
            forall|p: int| 0 <= p < order@.len() ==> 0 <= #[trigger] order@[p] < partitions@.len(),
            by_cost@.len() == j,
            forall|p: int|
                0 <= p < j ==> #[trigger] by_cost@[p] == partitions@[order@[p] as int],
        decreases order@.len() - j,
    {
        by_cost.push(partitions[order[j]]);
        j += 1;
    }
    assert(keys@ =~= nanos_keys(partitions@));
    assert(is_ranked_by(partitions@, order@, by_cost@));
    by_cost
}

/// The table of caps.
pub fn tabulate_caps(num_partitions: u64, boundary_cost: BlockCost, by_cost: &Vec<BlockCost>) -> (rows:
    Vec<CapRow>)
    requires
        by_cost@.len() < usize::MAX,
    ensures
        rows@ == cap_rows(num_partitions, boundary_cost, by_cost@),
        forall|i: int|
            0 <= i < rows@.len() ==> ({
                let line = #[trigger] rows@[i];
                let read = by_cost@.take(line.k as int);
                let nanos = boundary_cost.deser_sanitize_nanos + total_nanos(read);
                &&& line.blocks_read == line.k + 1
                &&& line.bytes == boundary_cost.bytes + total_bytes(read)
                &&& nanos <= u128::MAX ==> line.nanos == Some(nanos as u128)
                &&& nanos > u128::MAX ==> line.nanos is None
            }),
{
    let caps_shown: [usize; 7] = [16, 32, 64, 128, 256, 512, num_partitions as usize];
    let mut rows: Vec<CapRow> = Vec::new();
    let mut i: usize = 0;
    let mut seen_all: bool = false;
    while i < 7 && !seen_all
        invariant
            by_cost@.len() < usize::MAX,
            i <= 7,
            caps_shown@ == caps(num_partitions),
            rows@.len() == i,
            i <= row_count(num_partitions),
            seen_all ==> i == row_count(num_partitions),
            !seen_all ==> i < row_count(num_partitions) || i == 7,
            forall|p: int|
                0 <= p < i ==> #[trigger] rows@[p] == cap_row(
                    caps(num_partitions)[p],
                    num_partitions,
                    boundary_cost,
                    by_cost@,
                ),
        decreases 7 - i,
    {
        let cap: usize = caps_shown[i];
        let k: usize = if cap < by_cost.len() {
            cap
        } else {
            by_cost.len()
        };
        if cap as u64 >= num_partitions {
            seen_all = true;
        }
        proof {
            assert(k * usize::MAX + usize::MAX <= u128::MAX) by (nonlinear_arith)
                requires
                    k < usize::MAX,
            ;
        }
        let nanos: Option<u128> = match sum_nanos(by_cost, k) {
            Some(nanos) => boundary_cost.deser_sanitize_nanos.checked_add(nanos),
            None => None,
        };
        let bytes: u128 = sum_bytes(by_cost, k);
        rows.push(
            CapRow {
                k,
                blocks_read: k + 1,
                bytes: boundary_cost.bytes as u128 + bytes,
                nanos,
                no_cap: seen_all,
            },
        );
        i += 1;
    }
    assert(rows@ =~= cap_rows(num_partitions, boundary_cost, by_cost@));
    assert forall|i: int| 0 <= i < rows@.len() implies ({
        let line = #[trigger] rows@[i];
        let read = by_cost@.take(line.k as int);
        let nanos = boundary_cost.deser_sanitize_nanos + total_nanos(read);
        &&& line.blocks_read == line.k + 1
        &&& line.bytes == boundary_cost.bytes + total_bytes(read)
        &&& nanos <= u128::MAX ==> line.nanos == Some(nanos as u128)
        &&& nanos > u128::MAX ==> line.nanos is None
    }) by {
        lemma_line_adds_up(num_partitions, boundary_cost, by_cost@, i);
    }
    rows
}

/// The report on `entries`, of which each slot has one at most, and on the
/// epoch-boundary block, which costs `boundary_cost`, or nothing if it was not
/// seen.
pub fn build_report(
    entries: &Vec<(u64, BlockCost)>,
    boundary_cost: Option<BlockCost>,
    boundary_slot: u64,
    num_partitions: u64,
) -> (report: Result<CostReport, ReportError>)
    requires
        distinct_slots(entries@),
    ensures
        forall|blocks: Map<u64, BlockCost>| #[trigger]
            is_block_listing(entries@, blocks) ==> match report {
                Ok(told) => counts_fit(
                    partition_costs(blocks, boundary_slot, num_partitions),
                ) && reports(
                    told,
                    boundary_slot,
                    num_partitions,
                    (match boundary_cost {
                        Some(cost) => cost,
                        None => no_cost(),
                    }),
                    partition_costs(blocks, boundary_slot, num_partitions),
                ),
                Err(error) => error == ReportError::CountOverflow && !counts_fit(
                    partition_costs(blocks, boundary_slot, num_partitions),
                ),
            },
{
    let partitions = select_partitions(entries, boundary_slot, num_partitions);
    let boundary_cost: BlockCost = match boundary_cost {
        Some(cost) => cost,
        None => BlockCost::default(),
    };
    let total_tx = match count_transactions(&partitions) {
        Some(total) => total,
        None => {
            return Err(ReportError::CountOverflow);
        },
    };
    if partitions.len() == usize::MAX {
        return Err(ReportError::CountOverflow);
    }
    assert(partitions@.take(partitions@.len() as int) =~= partitions@);
    let total_nanos: Option<u128> = sum_nanos(&partitions, partitions.len());
    let total_bytes: u128 = sum_bytes(&partitions, partitions.len());
    let incomplete: bool = (partitions.len() as u64) < num_partitions;
    let mismatches: usize = count_mismatches(&partitions);
    let by_cost = rank_by_cost(&partitions);
    proof {
        lemma_ranking_keeps_total(partitions@, by_cost@);
    }
    let rows = tabulate_caps(num_partitions, boundary_cost, &by_cost);
    Ok(
        CostReport {
            boundary_slot,
            num_partitions,
            partitions,
            boundary_cost,
            incomplete,
            mismatches,
            total_tx,
            total_bytes,
            total_nanos,
            by_cost,
            rows,
        },
    )
}

} // verus!

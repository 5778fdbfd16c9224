//! Measures, per reward-partition block, the transaction deserialize + sanitize
//! cost and byte volume that the `getInflationReward` endpoint forces a node to
//! perform.
//!
//! The endpoint groups the requested addresses by reward partition and reads
//! one block per partition. The reward-partition blocks are the first blocks of
//! an epoch after the epoch-boundary block, which tells how many there are.
use crate::block_cost::BlockCost;
use crate::cost_tables::block_at;
use crate::cost_tables::block_contents;
use crate::cost_tables::blocks_of_map;
use crate::cost_tables::insert_block;
use crate::cost_tables::insert_pending;
use crate::cost_tables::new_block_map;
use crate::cost_tables::new_pending_map;
use crate::cost_tables::pending_contents;
use crate::cost_tables::take_pending;
use crate::cost_tables::waiting;
use crate::report::build_report;
use crate::report::counts_fit;
use crate::report::is_report;
use crate::report::partition_costs;
use crate::report::CostReport;
use crate::report::ReportError;
use crate::wire::all_parsable;
use crate::wire::all_readable;
use crate::wire::all_serializable;
use crate::wire::lemma_wire_bytes_are_all_bytes;
use crate::wire::nanos_of;
use crate::wire::parsed_form;
use crate::wire::serialize_all;
use crate::wire::time_deserialize_and_sanitize;
use crate::wire::total_bytes;
use crate::wire::wire_bytes;
use crate::wire::wire_form;
use dashmap::DashMap;
use solana_transaction::versioned::VersionedTransaction;
use std::time::Duration;
use vstd::prelude::*;

verus! {

/// How many slots are replayed if nothing else is asked for.
pub const DEFAULT_WINDOW_SLOTS: u64 = 800;

/// The first slot to replay and the slot before which the replay ends, or
/// `None` if there is no such slot.
pub open spec fn window_bounds(start: u64, window_slots: Option<u64>) -> Option<(u64, u64)> {
    let window = match window_slots {
        Some(window) => window,
        None => DEFAULT_WINDOW_SLOTS,
    };
    if start + window <= u64::MAX {
        Some((start, (start + window) as u64))
    } else {
        None
    }
}

/// The replay has as many slots as are asked for, 800 if nothing is asked for,
/// and begins with the first slot of the epoch.
pub proof fn lemma_window_has_its_slots(start: u64, window: u64)
    ensures
        match window_bounds(start, Some(window)) {
            Some((first, end)) => first == start && end - first == window,
            None => start + window > u64::MAX,
        },
        match window_bounds(start, None) {
            Some((first, end)) => first == start && end - first == 800,
            None => start + 800 > u64::MAX,
        },
{
}

/// The first slot to replay and the slot before which the replay ends, or
/// `None` if there is no such slot. `window_slots` may be left open.
pub fn slot_bounds(start: u64, window_slots: Option<u64>) -> (bounds: Option<(u64, u64)>)
    ensures
        ({
            let window = match window_slots {
                Some(window) => window,
                None => DEFAULT_WINDOW_SLOTS,
            };
            match bounds {
                Some((first, end)) => first == start && end == start + window,
                None => start + window > u64::MAX,
            }
        }),
        bounds == window_bounds(start, window_slots),
        window_slots is None ==> match bounds {
            Some((first, end)) => first == start && end == start + 800,
            None => start + 800 > u64::MAX,
        },
{
    let window: u64 = match window_slots {
        Some(window) => window,
        None => DEFAULT_WINDOW_SLOTS,
    };
    match start.checked_add(window) {
        Some(end) => Some((start, end)),
        None => None,
    }
}

/// What is known of a slot once it is over.
#[derive(Clone, Copy, Debug, PartialEq, Eq, Structural)]
pub enum BlockData {
    /// The slot has a block. The epoch-boundary block tells the number of reward
    /// partitions.
    Block { slot: u64, num_partitions: Option<u64>, executed_transaction_count: u64 },
    /// The slot has no block.
    Other,
}

/// Why a block could not be measured.
#[derive(Clone, Copy, Debug, PartialEq, Eq, Structural)]
pub enum MeasureError {
    /// A transaction cannot be serialized.
    Serialize,
    /// The number of bytes does not fit into its type.
    BytesOverflow,
    /// A transaction cannot be read back from its bytes.
    Deserialize,
}

/// What hinders the measurement of `transactions`, if anything does.
pub open spec fn measure_error(transactions: Seq<VersionedTransaction>) -> Option<MeasureError> {
    if !all_serializable(transactions) {
        Some(MeasureError::Serialize)
    } else if wire_bytes(transactions) > usize::MAX {
        Some(MeasureError::BytesOverflow)
    } else if !all_readable(transactions) {
        Some(MeasureError::Deserialize)
    } else {
        None
    }
}

/// A block can be measured exactly if all its transactions have a wire form, all
/// of them can be read back, and all their bytes together can be counted. What
/// hinders comes in that order: first a transaction without a wire form, then too
/// many bytes, then a transaction that cannot be read back.
pub proof fn lemma_what_hinders_measuring(transactions: Seq<VersionedTransaction>)
    ensures
        ({
            let serializable = forall|i: int|
                0 <= i < transactions.len() ==> wire_form(#[trigger] transactions[i]) is Some;
            let readable = forall|i: int|
                0 <= i < transactions.len() ==> parsed_form(
                    wire_form(#[trigger] transactions[i])->0,
                ) is Some;
            let bytes = transactions.map_values(
                |transaction: VersionedTransaction| wire_form(transaction)->0,
            ).flatten().len();
            &&& measure_error(transactions) is None <==> serializable && bytes <= usize::MAX
                && readable
            &&& measure_error(transactions) == Some(MeasureError::Serialize) <==> !serializable
            &&& measure_error(transactions) == Some(MeasureError::BytesOverflow)
                <==> serializable && bytes > usize::MAX
            &&& measure_error(transactions) == Some(MeasureError::Deserialize) <==> serializable
                && bytes <= usize::MAX && !readable
        }),
{
    lemma_wire_bytes_are_all_bytes(transactions);
}

/// The cost of a block counts each of its transactions and each byte of their
/// wire forms, put one behind the other; what the block reports is kept as it
/// is, and the time is that of some span.
pub proof fn lemma_cost_counts_all(
    cost: BlockCost,
    transactions: Seq<VersionedTransaction>,
    reported_tx_count: u64,
)
    ensures
        is_cost_of(cost, transactions, reported_tx_count) <==> {
            &&& cost.tx_count == transactions.len()
            &&& cost.reported_tx_count == reported_tx_count
            &&& cost.bytes == transactions.map_values(
                |transaction: VersionedTransaction| wire_form(transaction)->0,
            ).flatten().len()
            &&& exists|span: Duration| cost.deser_sanitize_nanos == #[trigger] nanos_of(span)
        },
{
    lemma_wire_bytes_are_all_bytes(transactions);
}

/// `cost` is what a measurement of `transactions` may give. Its time is the
/// length of some span of time; which one is up to the machine.
pub open spec fn is_cost_of(
    cost: BlockCost,
    transactions: Seq<VersionedTransaction>,
    reported_tx_count: u64,
) -> bool {
    &&& cost.tx_count == transactions.len()
    &&& cost.reported_tx_count == reported_tx_count
    &&& cost.bytes == wire_bytes(transactions)
    &&& exists|span: Duration| cost.deser_sanitize_nanos == #[trigger] nanos_of(span)
}

/// The cost of a block whose transactions took `span` to deserialize and
/// sanitize.
pub fn cost_in(tx_count: usize, reported_tx_count: u64, bytes: usize, span: Duration) -> (cost:
    BlockCost)
    ensures
        cost == (BlockCost {
            tx_count,
            reported_tx_count,
            bytes,
            deser_sanitize_nanos: nanos_of(span),
        }),
{
    BlockCost { tx_count, reported_tx_count, bytes, deser_sanitize_nanos: span.as_nanos() }
}

/// The measurement of reward-partition blocks.
pub struct InflationRewardCost {
    /// Transactions buffered per slot until the block completes.
    pending: DashMap<u64, Vec<VersionedTransaction>>,
    /// Finalized per-block cost, keyed by slot.
    blocks: DashMap<u64, BlockCost>,
    /// `(slot, num_partitions)` of the epoch-boundary block.
    boundary: Option<(u64, u64)>,
}

impl Default for InflationRewardCost {
    fn default() -> (measurement: Self)
        ensures
            measurement.pending() == Map::<u64, Seq<VersionedTransaction>>::empty(),
            measurement.blocks() == Map::<u64, BlockCost>::empty(),
            measurement.boundary() is None,
    {
        InflationRewardCost { pending: new_pending_map(), blocks: new_block_map(), boundary: None }
    }
}

impl InflationRewardCost {
    /// The transactions that wait for their block.
    pub closed spec fn pending(&self) -> Map<u64, Seq<VersionedTransaction>> {
        pending_contents(self.pending)
    }

    /// The blocks that were measured.
    pub closed spec fn blocks(&self) -> Map<u64, BlockCost> {
        block_contents(self.blocks)
    }

    /// Slot and number of partitions of the epoch-boundary block that was seen
    /// last.
    pub closed spec fn boundary(&self) -> Option<(u64, u64)> {
        self.boundary
    }

    /// The name under which the measurement is known.
    pub fn name(&self) -> (name: &'static str)
        ensures
            name@ == "inflation-reward-cost"@,
    {
        "inflation-reward-cost"
    }

    /// Measures the transactions of one block: their number, their bytes, and the
    /// span of time in which they were deserialized and sanitized. Transactions
    /// that sanitizing rejects count like the others.
    pub fn measure(txs: &[VersionedTransaction], reported_tx_count: u64) -> (cost: Result<
        BlockCost,
        MeasureError,
    >)
        ensures
            match cost {
                Ok(measured) => measure_error(txs@) is None && is_cost_of(
                    measured,
                    txs@,
                    reported_tx_count,
                ),
                Err(error) => measure_error(txs@) == Some(error),
            },
            cost matches Ok(measured) ==> {
                &&& measured.tx_count == txs@.len()
                &&& measured.reported_tx_count == reported_tx_count
                &&& measured.bytes == txs@.map_values(
                    |transaction: VersionedTransaction| wire_form(transaction)->0,
                ).flatten().len()
            },
    {
        proof {
            lemma_wire_bytes_are_all_bytes(txs@);
        }
        // Serialize once (setup, not timed) to obtain the wire bytes a blockstore
        // read would deserialize.
        let encoded = match serialize_all(txs) {
            Some(encoded) => encoded,
            None => {
                return Err(MeasureError::Serialize);
            },
        };
        let bytes: usize = match total_bytes(&encoded) {
            Some(bytes) => bytes,
            None => {
                return Err(MeasureError::BytesOverflow);
            },
        };
        proof {
            assert forall|i: int| 0 <= i < txs@.len() implies wire_form(#[trigger] txs@[i])
                == Some(encoded@[i]@) by {
                assert(wire_form(txs@[i]) == Some(encoded@[i]@));
            }
            assert(all_readable(txs@) <==> all_parsable(encoded@)) by {
                assert forall|i: int| 0 <= i < encoded@.len() && all_readable(
                    txs@,
                ) implies parsed_form((#[trigger] encoded@[i])@) is Some by {
                    assert(parsed_form(wire_form(txs@[i])->0) is Some);
                }
            }
        }
        // Time deserialize + sanitize, once per transaction.
        match time_deserialize_and_sanitize(&encoded) {
            Some((_, span)) => Ok(cost_in(txs.len(), reported_tx_count, bytes, span)),
            None => Err(MeasureError::Deserialize),
        }
    }

    /// Buffers a transaction until the block of its slot completes.
    pub fn on_transaction(&mut self, slot: u64, transaction: &VersionedTransaction)
        ensures
            final(self).pending() == old(self).pending().insert(
                slot,
                waiting(old(self).pending(), slot).push(*transaction),
            ),
            final(self).pending().dom() == old(self).pending().dom().insert(slot),
            old(self).pending().contains_key(slot) ==> final(self).pending()[slot] == old(
                self,
            ).pending()[slot].push(*transaction),
            !old(self).pending().contains_key(slot) ==> final(self).pending()[slot] == seq![
                *transaction,
            ],
            forall|other: u64| #[trigger]
                old(self).pending().contains_key(other) && other != slot ==> final(self).pending()[other]
                    == old(self).pending()[other],
            final(self).blocks() == old(self).blocks(),
            final(self).boundary() == old(self).boundary(),
    {
        let mut txs: Vec<VersionedTransaction> = self.take_waiting(slot);
        txs.push(transaction.clone());
        insert_pending(&mut self.pending, slot, txs);
        assert(self.pending() =~= old(self).pending().insert(
            slot,
            waiting(old(self).pending(), slot).push(*transaction),
        ));
    }

    /// Takes the transactions that wait for the block of `slot` out of the buffer.
    fn take_waiting(&mut self, slot: u64) -> (txs: Vec<VersionedTransaction>)
        ensures
            txs@ == waiting(old(self).pending(), slot),
            final(self).pending() == old(self).pending().remove(slot),
            final(self).blocks() == old(self).blocks(),
            final(self).boundary() == old(self).boundary(),
    {
        match take_pending(&mut self.pending, slot) {
            Some(txs) => txs,
            None => Vec::new(),
        }
    }

    /// Measures the transactions that were buffered for a block, and notes an
    /// epoch-boundary block. The buffer of the slot is gone afterwards, whether
    /// they could be measured or not.
    pub fn on_block(&mut self, block: &BlockData) -> (outcome: Result<(), MeasureError>)
        ensures
            match *block {
                BlockData::Block { slot, num_partitions, executed_transaction_count } => {
                    let txs = waiting(old(self).pending(), slot);
                    &&& final(self).pending() == old(self).pending().remove(slot)
                    &&& match outcome {
                        Ok(_) => {
                            &&& measure_error(txs) is None
                            &&& final(self).blocks() == old(self).blocks().insert(
                                slot,
                                final(self).blocks()[slot],
                            )
                            &&& is_cost_of(
                                final(self).blocks()[slot],
                                txs,
                                executed_transaction_count,
                            )
                            &&& final(self).boundary() == boundary_after(
                                old(self).boundary(),
                                slot,
                                num_partitions,
                            )
                        },
                        Err(error) => {
                            &&& measure_error(txs) == Some(error)
                            &&& final(self).blocks() == old(self).blocks()
                            &&& final(self).boundary() == old(self).boundary()
                        },
                    }
                },
                BlockData::Other => {
                    &&& outcome is Ok
                    &&& final(self).pending() == old(self).pending()
                    &&& final(self).blocks() == old(self).blocks()
                    &&& final(self).boundary() == old(self).boundary()
                },
            },
    {
        match *block {
            BlockData::Block { slot, num_partitions, executed_transaction_count } => {
                let txs: Vec<VersionedTransaction> = self.take_waiting(slot);
                match Self::measure(txs.as_slice(), executed_transaction_count) {
                    Ok(cost) => {
                        self.record_block(slot, cost, num_partitions);
                        Ok(())
                    },
                    Err(error) => Err(error),
                }
            },
            BlockData::Other => Ok(()),
        }
    }

    /// Notes the cost of a block, and the epoch-boundary if the block tells the
    /// number of partitions.
    pub fn record_block(&mut self, slot: u64, cost: BlockCost, num_partitions: Option<u64>)
        ensures
            final(self).pending() == old(self).pending(),
            final(self).blocks() == old(self).blocks().insert(slot, cost),
            final(self).boundary() == boundary_after(
                old(self).boundary(),
                slot,
                num_partitions,
            ),
            match num_partitions {
                Some(partitions) => final(self).boundary() == Some((slot, partitions)),
                None => final(self).boundary() == old(self).boundary(),
            },
    {
        insert_block(&mut self.blocks, slot, cost);
        match num_partitions {
            Some(partitions) => {
                self.boundary = Some((slot, partitions));
            },
            None => {},
        }
    }

    /// What the measured blocks tell of the reward partitions.
    pub fn report(&self) -> (report: Result<CostReport, ReportError>)
        ensures
            match self.boundary() {
                Some((slot, num_partitions)) => {
                    let partitions = partition_costs(self.blocks(), slot, num_partitions);
                    match report {
                        Ok(told) => counts_fit(partitions) && is_report(
                            told,
                            self.blocks(),
                            slot,
                            num_partitions,
                        ),
                        Err(error) => error == ReportError::CountOverflow && !counts_fit(partitions),
                    }
                },
                None => report == Err::<CostReport, ReportError>(ReportError::NoBoundary),
            },
    {
        match self.boundary {
            Some((boundary_slot, num_partitions)) => {
                let entries = blocks_of_map(&self.blocks);
                let boundary_cost = block_at(&self.blocks, boundary_slot);
                build_report(&entries, boundary_cost, boundary_slot, num_partitions)
            },
            None => Err(ReportError::NoBoundary),
        }
    }
}

/// The epoch boundary after one more block: the block itself if it tells the
/// number of partitions.
pub open spec fn boundary_after(
    boundary: Option<(u64, u64)>,
    slot: u64,
    num_partitions: Option<u64>,
) -> Option<(u64, u64)> {
    match num_partitions {
        Some(partitions) => Some((slot, partitions)),
        None => boundary,
    }
}

/// The epoch boundary after a run of blocks, each with its slot and the number
/// of partitions if it tells one.
pub open spec fn boundary_after_all(blocks: Seq<(u64, Option<u64>)>) -> Option<(u64, u64)>
    decreases blocks.len(),
{
    if blocks.len() == 0 {
        None
    } else {
        boundary_after(
            boundary_after_all(blocks.drop_last()),
            blocks.last().0,
            blocks.last().1,
        )
    }
}

/// A block that tells the number of partitions is the epoch boundary from then
/// on, wherever it lies; any other block leaves the boundary as it was.
pub proof fn lemma_boundary_moves(boundary: Option<(u64, u64)>, slot: u64, num_partitions: u64)
    ensures
        boundary_after(boundary, slot, Some(num_partitions)) == Some((slot, num_partitions)),
        boundary_after(boundary, slot, None) == boundary,
{
}

/// The epoch boundary is the last block that told the number of partitions, and
/// there is none if no block did.
pub proof fn lemma_boundary_is_last(blocks: Seq<(u64, Option<u64>)>)
    ensures
        match boundary_after_all(blocks) {
            Some((slot, num_partitions)) => exists|i: int|
                0 <= i < blocks.len() && #[trigger] blocks[i] == (slot, Some(num_partitions))
                    && forall|j: int| i < j < blocks.len() ==> (#[trigger] blocks[j]).1 is None,
            None => forall|i: int| 0 <= i < blocks.len() ==> (#[trigger] blocks[i]).1 is None,
        },
    decreases blocks.len(),
{
    if blocks.len() > 0 {
        let rest = blocks.drop_last();
        lemma_boundary_is_last(rest);
        let last = blocks.len() - 1;
        match blocks.last().1 {
            Some(num_partitions) => {
                assert(blocks[last] == (blocks.last().0, Some(num_partitions)));
            },
            None => match boundary_after_all(rest) {
                Some((slot, num_partitions)) => {
                    let i = choose|i: int|
                        0 <= i < rest.len() && #[trigger] rest[i] == (slot, Some(num_partitions))
                            && forall|j: int| i < j < rest.len() ==> (#[trigger] rest[j]).1 is None;
                    assert(blocks[i] == (slot, Some(num_partitions)));
                    assert forall|j: int| i < j < blocks.len() implies (
                    #[trigger] blocks[j]).1 is None by {
                        if j < last {
                            assert(rest[j] == blocks[j]);
                        }
                    }
                },
                None => {
                    assert forall|j: int| 0 <= j < blocks.len() implies (
                    #[trigger] blocks[j]).1 is None by {
                        if j < last {
                            assert(rest[j] == blocks[j]);
                        }
                    }
                },
            },
        }
    }
}

/// The buffers after a run of transactions, each with its slot.
pub open spec fn pending_after(
    pending: Map<u64, Seq<VersionedTransaction>>,
    arrivals: Seq<(u64, VersionedTransaction)>,
) -> Map<u64, Seq<VersionedTransaction>>
    decreases arrivals.len(),
{
    if arrivals.len() == 0 {
        pending
    } else {
        let before = pending_after(pending, arrivals.drop_last());
        let (slot, transaction) = arrivals.last();
        before.insert(slot, waiting(before, slot).push(transaction))
    }
}

/// The transactions of one slot, in the order in which they came.
pub open spec fn arrivals_of(arrivals: Seq<(u64, VersionedTransaction)>, slot: u64) -> Seq<
    VersionedTransaction,
>
    decreases arrivals.len(),
{
    if arrivals.len() == 0 {
        Seq::empty()
    } else {
        let before = arrivals_of(arrivals.drop_last(), slot);
        if arrivals.last().0 == slot {
            before.push(arrivals.last().1)
        } else {
            before
        }
    }
}

/// The transactions of one slot are those that came with it, in order.
pub proof fn lemma_arrivals_of_slot(arrivals: Seq<(u64, VersionedTransaction)>, slot: u64)
    ensures
        arrivals_of(arrivals, slot) == arrivals.filter(
            |arrival: (u64, VersionedTransaction)| arrival.0 == slot,
        ).map_values(|arrival: (u64, VersionedTransaction)| arrival.1),
    decreases arrivals.len(),
{
    let of_slot = |arrival: (u64, VersionedTransaction)| arrival.0 == slot;
    let transaction = |arrival: (u64, VersionedTransaction)| arrival.1;
    reveal(Seq::filter);
    if arrivals.len() == 0 {
        assert(arrivals.filter(of_slot).map_values(transaction) =~= Seq::empty());
    } else {
        lemma_arrivals_of_slot(arrivals.drop_last(), slot);
        assert(arrivals_of(arrivals, slot) =~= arrivals.filter(of_slot).map_values(transaction));
    }
}

/// What waits for a block is the list of its slot, and nothing if the slot has
/// no list.
pub proof fn lemma_waiting_is_list(pending: Map<u64, Seq<VersionedTransaction>>, slot: u64)
    ensures
        pending.contains_key(slot) ==> waiting(pending, slot) == pending[slot],
        !pending.contains_key(slot) ==> waiting(pending, slot).len() == 0,
{
}

/// However the transactions of different slots mingle, each slot has its own,
/// in the order in which they came, behind those that waited already.
pub proof fn lemma_each_slot_has_its_own(
    pending: Map<u64, Seq<VersionedTransaction>>,
    arrivals: Seq<(u64, VersionedTransaction)>,
    slot: u64,
)
    ensures
        waiting(pending_after(pending, arrivals), slot) == waiting(pending, slot) + arrivals_of(
            arrivals,
            slot,
        ),
    decreases arrivals.len(),
{
    if arrivals.len() == 0 {
        assert(waiting(pending, slot) + arrivals_of(arrivals, slot) =~= waiting(pending, slot));
    } else {
        lemma_each_slot_has_its_own(pending, arrivals.drop_last(), slot);
        assert(waiting(pending_after(pending, arrivals), slot) =~= waiting(pending, slot)
            + arrivals_of(arrivals, slot));
    }
}

/// Measuring the block of one slot takes that slot's transactions and leaves
/// those of the other slots as they are.
pub proof fn lemma_block_takes_its_own(
    pending: Map<u64, Seq<VersionedTransaction>>,
    slot: u64,
    other: u64,
)
    ensures
        waiting(pending.remove(slot), slot) == Seq::<VersionedTransaction>::empty(),
        other != slot ==> waiting(pending.remove(slot), other) == waiting(pending, other),
{
}

} // verus!

//! The concurrent maps of the cost measurement: the transactions that wait for
//! their block, and the blocks that were measured.
use crate::block_cost::BlockCost;
use dashmap::DashMap;
use solana_transaction::versioned::VersionedTransaction;
use vstd::prelude::*;

verus! {

/// What the map of waiting transactions holds: for each slot that has an
/// entry, its transactions in the order in which they came.
pub uninterp spec fn pending_contents(map: DashMap<u64, Vec<VersionedTransaction>>) -> Map<
    u64,
    Seq<VersionedTransaction>,
>;

/// What the map of measured blocks holds: for each slot that has an entry, the
/// cost of its block.
pub uninterp spec fn block_contents(map: DashMap<u64, BlockCost>) -> Map<u64, BlockCost>;

/// The transactions that wait for the block of `slot`.
pub open spec fn waiting(
    pending: Map<u64, Seq<VersionedTransaction>>,
    slot: u64,
) -> Seq<VersionedTransaction> {
    if pending.contains_key(slot) {
        pending[slot]
    } else {
        Seq::empty()
    }
}

/// `entries` lists each slot of `blocks` once, with its cost, and no other
/// slot.
pub open spec fn is_block_listing(
    entries: Seq<(u64, BlockCost)>,
    blocks: Map<u64, BlockCost>,
) -> bool {
    &&& forall|i: int|
        0 <= i < entries.len() ==> blocks.contains_key((#[trigger] entries[i]).0)
            && blocks[entries[i].0] == entries[i].1
    &&& forall|i: int, j: int|
        0 <= i < j < entries.len() ==> (#[trigger] entries[i]).0 != (#[trigger] entries[j]).0
    &&& forall|slot: u64| #[trigger]
        blocks.contains_key(slot) ==> exists|i: int|
            0 <= i < entries.len() && (#[trigger] entries[i]).0 == slot
}

/// Entries of different slots list a map, and one map only: the one that has
/// exactly their slots, each with its cost.
pub proof fn lemma_entries_list_one_map(entries: Seq<(u64, BlockCost)>) -> (blocks: Map<
    u64,
    BlockCost,
>)
    requires
        forall|i: int, j: int|
            0 <= i < j < entries.len() ==> (#[trigger] entries[i]).0 != (#[trigger] entries[j]).0,
    ensures
        is_block_listing(entries, blocks),
        forall|slot: u64| #[trigger]
            blocks.contains_key(slot) <==> exists|i: int|
                0 <= i < entries.len() && (#[trigger] entries[i]).0 == slot,
        forall|i: int|
            0 <= i < entries.len() ==> blocks[(#[trigger] entries[i]).0] == entries[i].1,
        forall|other: Map<u64, BlockCost>| #[trigger]
            is_block_listing(entries, other) ==> other == blocks,
{
    let blocks = Map::new(
        |slot: u64| exists|i: int| 0 <= i < entries.len() && (#[trigger] entries[i]).0 == slot,
        |slot: u64|
            entries[choose|i: int| 0 <= i < entries.len() && (#[trigger] entries[i]).0 == slot].1,
    );
    assert forall|i: int| 0 <= i < entries.len() implies blocks.contains_key(
        (#[trigger] entries[i]).0,
    ) && blocks[entries[i].0] == entries[i].1 by {
        let slot = entries[i].0;
        let k = choose|k: int| 0 <= k < entries.len() && (#[trigger] entries[k]).0 == slot;
        if k < i {
            assert(entries[k].0 != entries[i].0);
        } else if i < k {
            assert(entries[i].0 != entries[k].0);
        }
    }
    assert forall|other: Map<u64, BlockCost>| #[trigger]
        is_block_listing(entries, other) implies other == blocks by {
        assert forall|slot: u64| other.contains_key(slot) implies blocks.contains_key(slot)
            && other[slot] == blocks[slot] by {
            let i = choose|i: int| 0 <= i < entries.len() && (#[trigger] entries[i]).0 == slot;
            assert(other[entries[i].0] == entries[i].1);
        }
        assert forall|slot: u64| blocks.contains_key(slot) implies other.contains_key(slot) by {
            let i = choose|i: int| 0 <= i < entries.len() && (#[trigger] entries[i]).0 == slot;
            assert(other.contains_key(entries[i].0));
        }
        assert(other =~= blocks);
    }
    blocks
}

/// Calls `DashMap::new`, which makes a map without entries.
#[verifier::external_body]
pub(crate) fn new_pending_map() -> (map: DashMap<u64, Vec<VersionedTransaction>>)
    ensures
        pending_contents(map) == (Map::<u64, Seq<VersionedTransaction>>::empty()),
{
    DashMap::new()
}

/// Calls `DashMap::insert`, which puts the list under `slot` in the place of
/// what was there. No other entry changes.
#[verifier::external_body]
pub(crate) fn insert_pending(
    map: &mut DashMap<u64, Vec<VersionedTransaction>>,
    slot: u64,
    transactions: Vec<VersionedTransaction>,
)
    ensures
        pending_contents(*final(map)) == pending_contents(*old(map)).insert(
            slot,
            transactions@,
        ),
{
    map.insert(slot, transactions);
}

/// Calls `DashMap::remove`, which takes the entry under `slot` out of the map
/// and hands out its list, if there is one. No other entry changes.
#[verifier::external_body]
pub(crate) fn take_pending(map: &mut DashMap<u64, Vec<VersionedTransaction>>, slot: u64) -> (taken:
    Option<Vec<VersionedTransaction>>)
    ensures
        pending_contents(*final(map)) == pending_contents(*old(map)).remove(slot),
        match taken {
            Some(transactions) => pending_contents(*old(map)).contains_key(slot)
                && pending_contents(*old(map))[slot] == transactions@,
            None => !pending_contents(*old(map)).contains_key(slot),
        },
{
    map.remove(&slot).map(|entry| entry.1)
}

/// Calls `DashMap::new`, which makes a map without entries.
#[verifier::external_body]
pub(crate) fn new_block_map() -> (map: DashMap<u64, BlockCost>)
    ensures
        block_contents(map) == (Map::<u64, BlockCost>::empty()),
{
    DashMap::new()
}

/// Calls `DashMap::insert`, which puts the cost under `slot` in the place of
/// what was there. No other entry changes.
#[verifier::external_body]
pub(crate) fn insert_block(map: &mut DashMap<u64, BlockCost>, slot: u64, cost: BlockCost)
    ensures
        block_contents(*final(map)) == block_contents(*old(map)).insert(slot, cost),
{
    map.insert(slot, cost);
}

/// Calls `DashMap::get` and copies the cost under `slot`, if there is one.
#[verifier::external_body]
pub(crate) fn block_at(map: &DashMap<u64, BlockCost>, slot: u64) -> (cost: Option<BlockCost>)
    ensures
        match cost {
            Some(found) => block_contents(*map).contains_key(slot) && block_contents(*map)[slot]
                == found,
            None => !block_contents(*map).contains_key(slot),
        },
{
    map.get(&slot).map(|cost| *cost)
}

/// Calls `DashMap::iter`, which visits each entry once, in no particular
/// order, and copies its slot and its cost.
#[verifier::external_body]
pub(crate) fn blocks_of_map(map: &DashMap<u64, BlockCost>) -> (entries: Vec<(u64, BlockCost)>)
    ensures
        is_block_listing(entries@, block_contents(*map)),
{
    map.iter().map(|entry| (*entry.key(), *entry.value())).collect()
}

} // verus!

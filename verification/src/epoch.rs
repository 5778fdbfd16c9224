//! Slots and epochs.
use vstd::prelude::*;

verus! {

/// The number of slots in an epoch.
pub const SLOTS_PER_EPOCH: u64 = 432_000;

/// The epoch in which a slot lies, reduced to the 16 bits in which epochs are
/// kept.
pub open spec fn epoch_of(slot: u64) -> int {
    (slot as int / SLOTS_PER_EPOCH as int) % 0x1_0000
}

/// Convert slot number to epoch number (each epoch has 432,000 slots).
pub fn slot_to_epoch(slot: u64) -> (epoch: u16)
    ensures
        epoch == epoch_of(slot),
        slot < 28_311_552_000 ==> epoch * 432_000 <= slot < (epoch + 1) * 432_000,
{
    let whole: u64 = slot / SLOTS_PER_EPOCH;
    assert(#[verifier::truncate] (whole as u16) == whole % 0x1_0000) by (bit_vector);
    #[verifier::truncate]
    (whole as u16)
}

/// Epochs come in the order of their slots, as long as they fit into 16 bits.
pub proof fn lemma_epochs_in_slot_order(earlier: u64, later: u64)
    requires
        earlier <= later,
        later < SLOTS_PER_EPOCH * 0x1_0000,
    ensures
        epoch_of(earlier) <= epoch_of(later),
{
}

/// Epochs follow each other without gaps, 432,000 slots each: the slot lies in
/// its epoch, counted on from the epoch after which the 16 bits began anew for
/// the last time. Before slot 28,311,552,000 they have not begun anew.
pub proof fn lemma_slot_lies_in_its_epoch(slot: u64) -> (times: nat)
    ensures
        0 <= epoch_of(slot) < 0x1_0000,
        (epoch_of(slot) + times * 0x1_0000) * 432_000 <= slot < (epoch_of(slot) + times * 0x1_0000
            + 1) * 432_000,
        slot < 28_311_552_000 ==> times == 0 && epoch_of(slot) * 432_000 <= slot < (epoch_of(slot)
            + 1) * 432_000,
{
    (slot as nat / 432_000) / 0x1_0000
}

/// All slots of an epoch have the same epoch, and the next slot has the next
/// one, as long as epochs fit into 16 bits.
pub proof fn lemma_epoch_has_its_slots(epoch: u16, slot: u64)
    requires
        slot < 28_311_552_000,
    ensures
        epoch_of(slot) == epoch <==> epoch * 432_000 <= slot < (epoch + 1) * 432_000,
{
    let times = lemma_slot_lies_in_its_epoch(slot);
}

/// After 28,311,552,000 slots the epochs begin anew.
pub proof fn lemma_epochs_begin_anew(slot: u64, later: u64)
    requires
        later == slot + 28_311_552_000,
    ensures
        epoch_of(later) == epoch_of(slot),
{
    assert(later as int / 432_000 == slot as int / 432_000 + 0x1_0000);
}

} // verus!

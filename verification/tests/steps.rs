use jetstreamer_plugins::checkpoint::CheckpointState;
use jetstreamer_plugins::epoch::slot_to_epoch;
use jetstreamer_plugins::order::{stable_order, Direction};
use jetstreamer_plugins::save::{temp_filename, SaveState, SaveStep};

#[test]
fn slots_belong_to_epochs() {
    assert_eq!(slot_to_epoch(0), 0);
    assert_eq!(slot_to_epoch(431_999), 0);
    assert_eq!(slot_to_epoch(432_000), 1);
    assert_eq!(slot_to_epoch(300_000_000), 694);
    assert_eq!(slot_to_epoch(432_000 * 65_535), 65_535);
    assert_eq!(slot_to_epoch(432_000 * 65_536), 0);
    assert_eq!(slot_to_epoch(432_000 * 65_537), 1);
}

#[test]
fn a_checkpoint_is_due_at_multiples_beyond_the_last() {
    let state = CheckpointState {
        interval: 100,
        last_checkpoint_slot: 0,
    };
    assert!(state.checkpoint_is_due(200, 100));
    assert!(!state.checkpoint_is_due(200, 200));
    assert!(!state.checkpoint_is_due(201, 100));
    assert!(!state.checkpoint_is_due(0, 0));
}

#[test]
fn a_claim_fails_if_another_came_first() {
    let mut state = CheckpointState {
        interval: 100,
        last_checkpoint_slot: 100,
    };
    assert!(state.claim(200, 100));
    assert!(!state.claim(300, 100));
    assert_eq!(state.last_checkpoint_slot, 200);
    assert!(state.claim(300, 200));
    assert_eq!(state.last_checkpoint_slot, 300);
    assert_eq!(state.interval, 100);
}

#[test]
fn a_save_goes_through_its_steps() {
    let mut state = SaveState::begin();
    for step in [
        SaveStep::Lock,
        SaveStep::Serialize,
        SaveStep::Create,
        SaveStep::Write,
        SaveStep::Sync,
        SaveStep::Rename,
    ] {
        assert_eq!(state, SaveState::Next(step));
        state = state.advance(true);
    }
    assert_eq!(state, SaveState::Done);
    assert_eq!(state.advance(false), SaveState::Done);
}

#[test]
fn a_failed_step_ends_a_save() {
    for good in 0..6 {
        let mut state = SaveState::begin();
        for _ in 0..good {
            state = state.advance(true);
        }
        let failed = state.advance(false);
        assert!(matches!(failed, SaveState::Failed(_)));
        assert_eq!(state, SaveState::Next(match failed {
            SaveState::Failed(step) => step,
            _ => unreachable!(),
        }));
        assert_eq!(failed.advance(true), failed);
    }
}

#[test]
fn no_file_is_touched_without_lock_and_contents() {
    let begun = SaveState::begin();
    assert_eq!(begun.advance(false), SaveState::Failed(SaveStep::Lock));
    let locked = begun.advance(true);
    assert_eq!(locked.advance(false), SaveState::Failed(SaveStep::Serialize));
    assert_eq!(locked.advance(true), SaveState::Next(SaveStep::Create));
}

#[test]
fn claimed_slots_are_multiples_of_the_interval() {
    let mut state = CheckpointState {
        interval: 40,
        last_checkpoint_slot: 0,
    };
    let mut claimed = vec![];
    for slot in 0..200u64 {
        let last = state.last_checkpoint_slot;
        if state.checkpoint_is_due(slot, last) && state.claim(slot, last) {
            claimed.push(slot);
        }
    }
    assert_eq!(claimed, vec![40, 80, 120, 160]);
}

#[test]
fn the_temporary_file_has_its_own_name() {
    assert_eq!(temp_filename("a.bin"), "a.bin.tmp");
    assert_eq!(temp_filename(""), ".tmp");
}

#[test]
fn orders_are_stable() {
    let keys = vec![5, 1, 5, 9, 1];
    assert_eq!(
        stable_order(&keys, Direction::Ascending),
        vec![1, 4, 0, 2, 3]
    );
    assert_eq!(
        stable_order(&keys, Direction::Descending),
        vec![3, 0, 2, 1, 4]
    );
    assert!(stable_order(&vec![], Direction::Ascending).is_empty());
}

#[test]
fn long_orders_are_orders() {
    let keys: Vec<u128> = (0..1000u128).map(|i| (i * 7919) % 101).collect();
    let order = stable_order(&keys, Direction::Descending);
    let mut expected: Vec<usize> = (0..1000).collect();
    expected.sort_by_key(|&i| std::cmp::Reverse(keys[i]));
    assert_eq!(order, expected);
}

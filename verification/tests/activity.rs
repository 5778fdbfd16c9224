use jetstreamer_plugins::activity::{Access, AccountActivity};
use jetstreamer_plugins::top_epochs::TOP_EPOCHS;

#[test]
fn new_activity_is_empty() {
    let activity = AccountActivity::default();
    assert!(activity.top_read_epochs.is_empty());
    assert!(activity.top_write_epochs.is_empty());
    assert_eq!(activity.read_count, 0);
    assert_eq!(activity.write_count, 0);
}

#[test]
fn epochs_are_kept_in_descending_order() {
    let mut activity = AccountActivity::default();
    for epoch in [3, 700, 12, 5, 699] {
        activity.add_read_epoch(epoch);
    }
    assert_eq!(activity.top_read_epochs, vec![700, 699, 12, 5, 3]);
    assert_eq!(activity.read_count, 5);
}

#[test]
fn a_known_epoch_is_counted_but_not_listed_again() {
    let mut activity = AccountActivity::default();
    activity.add_write_epoch(8);
    activity.add_write_epoch(9);
    activity.add_write_epoch(8);
    assert_eq!(activity.top_write_epochs, vec![9, 8]);
    assert_eq!(activity.write_count, 3);
}

#[test]
fn reads_and_writes_are_kept_apart() {
    let mut activity = AccountActivity::default();
    activity.add_read_epoch(1);
    activity.add_write_epoch(2);
    assert_eq!(activity.top_read_epochs, vec![1]);
    assert_eq!(activity.top_write_epochs, vec![2]);
    assert_eq!((activity.read_count, activity.write_count), (1, 1));
}

#[test]
fn only_the_highest_epochs_stay() {
    let mut activity = AccountActivity::default();
    for epoch in 0..25 {
        activity.add_read_epoch(epoch);
    }
    assert_eq!(activity.top_read_epochs.len(), TOP_EPOCHS);
    assert_eq!(
        activity.top_read_epochs,
        vec![24, 23, 22, 21, 20, 19, 18, 17, 16, 15]
    );
    activity.add_read_epoch(3);
    assert_eq!(activity.top_read_epochs.len(), TOP_EPOCHS);
    assert!(!activity.top_read_epochs.contains(&3));
    assert_eq!(activity.read_count, 26);
}

#[test]
fn the_order_of_the_epochs_leaves_no_trace() {
    let mut up = AccountActivity::default();
    let mut down = AccountActivity::default();
    for epoch in 0..14 {
        up.add_write_epoch(epoch);
        down.add_write_epoch(13 - epoch);
    }
    assert_eq!(up.top_write_epochs, down.top_write_epochs);
    assert_eq!(
        up.top_write_epochs,
        vec![13, 12, 11, 10, 9, 8, 7, 6, 5, 4]
    );
}

#[test]
fn a_list_out_of_order_is_put_in_order() {
    let mut activity = AccountActivity {
        top_read_epochs: vec![1, 9, 4, 9],
        top_write_epochs: vec![],
        read_count: 4,
        write_count: 0,
    };
    activity.add_read_epoch(6);
    assert_eq!(activity.top_read_epochs, vec![9, 9, 6, 4, 1]);
}

#[test]
fn a_list_with_the_epoch_is_left_alone_whatever_it_holds() {
    let mut activity = AccountActivity {
        top_read_epochs: vec![1, 9, 4, 9],
        top_write_epochs: vec![],
        read_count: 4,
        write_count: 0,
    };
    activity.add_read_epoch(4);
    assert_eq!(activity.top_read_epochs, vec![1, 9, 4, 9]);
    assert_eq!(activity.read_count, 5);
}

#[test]
fn a_list_that_is_too_long_is_cut() {
    let mut activity = AccountActivity {
        top_read_epochs: vec![1, 2, 3, 4, 5, 6, 7, 8, 9, 10, 11, 12],
        top_write_epochs: vec![],
        read_count: 12,
        write_count: 0,
    };
    activity.add_read_epoch(0);
    assert_eq!(
        activity.top_read_epochs,
        vec![12, 11, 10, 9, 8, 7, 6, 5, 4, 3]
    );
}

#[test]
fn the_last_count_that_fits_can_be_reached() {
    let mut activity = AccountActivity::default();
    activity.read_count = u32::MAX - 1;
    activity.add_read_epoch(1);
    assert_eq!(activity.read_count, u32::MAX);
}

#[test]
fn a_list_of_epochs_stays_sorted_whatever_comes() {
    let full: Vec<u16> = (0..10).map(|i| 100 - 10 * i).collect();
    let mut list = full.clone();
    AccountActivity::add_epoch_to_list(&mut list, 10);
    assert_eq!(list, full);
    AccountActivity::add_epoch_to_list(&mut list, 5);
    assert_eq!(list, full);
    AccountActivity::add_epoch_to_list(&mut list, 55);
    assert_eq!(list, vec![100, 90, 80, 70, 60, 55, 50, 40, 30, 20]);

    let mut first = full.clone();
    AccountActivity::add_epoch_to_list(&mut first, 15);
    AccountActivity::add_epoch_to_list(&mut first, 95);
    let mut second = full;
    AccountActivity::add_epoch_to_list(&mut second, 95);
    AccountActivity::add_epoch_to_list(&mut second, 15);
    assert_eq!(first, second);
    assert_eq!(first, vec![100, 95, 90, 80, 70, 60, 50, 40, 30, 20]);
}

#[test]
fn a_first_access_is_one_access() {
    let activity = AccountActivity::first_access(Access::Write, 44);
    assert_eq!(activity.top_write_epochs, vec![44]);
    assert_eq!(activity.write_count, 1);
    assert_eq!(activity.read_count, 0);
    assert!(activity.top_read_epochs.is_empty());
}

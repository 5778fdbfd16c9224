use jetstreamer_plugins::activity_table::AccountActivityEntry;
use jetstreamer_plugins::message::{Message, MessageHeader, Pubkey, Transaction, VersionedMessage};
use jetstreamer_plugins::program_tracking::{
    prepare_save, AccountSlotTrackingPlugin, PendingSave, SaveError, CHECKPOINT_FILENAME,
    FINAL_RESULTS_FILENAME,
};
use jetstreamer_plugins::save::{SaveState, SaveStep};
use jetstreamer_plugins::stored::read_entries;

fn key(byte: u8) -> Pubkey {
    [byte; 32]
}

fn header(required: u8, readonly_signed: u8, readonly_unsigned: u8) -> MessageHeader {
    MessageHeader {
        num_required_signatures: required,
        num_readonly_signed_accounts: readonly_signed,
        num_readonly_unsigned_accounts: readonly_unsigned,
    }
}

fn legacy(slot: u64, header: MessageHeader, account_keys: Vec<Pubkey>) -> Transaction {
    Transaction {
        slot,
        message: VersionedMessage::Legacy(Message {
            header,
            account_keys,
        }),
    }
}

fn apply(plugin: &mut AccountSlotTrackingPlugin, transaction: &Transaction) {
    assert!(transaction.message.check_header());
    assert!(plugin.has_room(transaction));
    plugin.on_transaction(transaction);
}

fn sorted(plugin: &AccountSlotTrackingPlugin) -> Vec<AccountActivityEntry> {
    let mut entries = plugin.collect_data();
    entries.sort_by_key(|entry| entry.account);
    entries
}

#[test]
fn keys_are_split_into_written_and_read() {
    let keys: Vec<Pubkey> = (0..7).map(key).collect();
    let (writable, readonly) =
        AccountSlotTrackingPlugin::extract_account_access(&header(3, 1, 2), &keys);
    assert_eq!(writable, vec![key(0), key(1), key(3), key(4)]);
    assert_eq!(readonly, vec![key(2), key(5), key(6)]);
}

#[test]
fn a_group_may_be_empty() {
    let keys: Vec<Pubkey> = (0..2).map(key).collect();
    let (writable, readonly) =
        AccountSlotTrackingPlugin::extract_account_access(&header(2, 2, 0), &keys);
    assert!(writable.is_empty());
    assert_eq!(readonly, keys);
    let (writable, readonly) =
        AccountSlotTrackingPlugin::extract_account_access(&header(0, 0, 0), &[]);
    assert!(writable.is_empty());
    assert!(readonly.is_empty());
}

#[test]
fn headers_that_do_not_fit_are_told() {
    assert!(header(3, 1, 2).is_consistent_with(5));
    assert!(!header(3, 1, 2).is_consistent_with(4));
    assert!(!header(1, 2, 0).is_consistent_with(9));
    assert!(!header(3, 0, 0).is_consistent_with(2));
    assert!(header(255, 255, 255).is_consistent_with(510));
    assert!(!header(255, 255, 255).is_consistent_with(509));
}

#[test]
fn a_transaction_is_noted_for_each_of_its_accounts() {
    let mut plugin = AccountSlotTrackingPlugin::default();
    apply(
        &mut plugin,
        &legacy(864_000, header(1, 0, 1), vec![key(1), key(2), key(3)]),
    );
    let entries = sorted(&plugin);
    assert_eq!(entries.len(), 3);
    for entry in &entries[..2] {
        assert_eq!(entry.activity.top_write_epochs, vec![2]);
        assert_eq!(entry.activity.write_count, 1);
        assert_eq!(entry.activity.read_count, 0);
        assert!(entry.activity.top_read_epochs.is_empty());
    }
    assert_eq!(entries[2].account, key(3));
    assert_eq!(entries[2].activity.top_read_epochs, vec![2]);
    assert_eq!(entries[2].activity.read_count, 1);
    assert_eq!(entries[2].activity.write_count, 0);
}

#[test]
fn both_message_versions_are_noted_alike() {
    let mut legacy_plugin = AccountSlotTrackingPlugin::default();
    let mut v0_plugin = AccountSlotTrackingPlugin::default();
    apply(
        &mut legacy_plugin,
        &legacy(432_000, header(2, 1, 1), vec![key(1), key(2), key(3)]),
    );
    apply(
        &mut v0_plugin,
        &Transaction {
            slot: 432_000,
            message: VersionedMessage::V0(Message {
                header: header(2, 1, 1),
                account_keys: vec![key(1), key(2), key(3)],
            }),
        },
    );
    let (left, right) = (sorted(&legacy_plugin), sorted(&v0_plugin));
    assert_eq!(left.len(), 3);
    for (a, b) in left.iter().zip(&right) {
        assert_eq!(a.account, b.account);
        assert_eq!(a.activity.top_read_epochs, b.activity.top_read_epochs);
        assert_eq!(a.activity.top_write_epochs, b.activity.top_write_epochs);
        assert_eq!(a.activity.read_count, b.activity.read_count);
        assert_eq!(a.activity.write_count, b.activity.write_count);
    }
}

#[test]
fn counts_and_epochs_sum_up_the_transactions() {
    let mut plugin = AccountSlotTrackingPlugin::default();
    for epoch in [4u64, 2, 4, 7] {
        apply(
            &mut plugin,
            &legacy(epoch * 432_000 + 17, header(1, 0, 1), vec![key(1), key(2)]),
        );
    }
    apply(
        &mut plugin,
        &legacy(432_000, header(1, 0, 0), vec![key(2)]),
    );
    let entries = sorted(&plugin);
    assert_eq!(entries.len(), 2);
    assert_eq!(entries[0].activity.top_write_epochs, vec![7, 4, 2]);
    assert_eq!(entries[0].activity.write_count, 4);
    assert_eq!(entries[1].activity.top_read_epochs, vec![7, 4, 2]);
    assert_eq!(entries[1].activity.read_count, 4);
    assert_eq!(entries[1].activity.top_write_epochs, vec![1]);
    assert_eq!(entries[1].activity.write_count, 1);
}

#[test]
fn a_key_that_is_listed_twice_counts_twice() {
    let mut plugin = AccountSlotTrackingPlugin::default();
    apply(
        &mut plugin,
        &legacy(0, header(1, 0, 1), vec![key(9), key(9), key(9)]),
    );
    let entries = sorted(&plugin);
    assert_eq!(entries.len(), 1);
    assert_eq!(entries[0].account, key(9));
    assert_eq!(entries[0].activity.write_count, 2);
    assert_eq!(entries[0].activity.read_count, 1);
    assert_eq!(entries[0].activity.top_write_epochs, vec![0]);
}

#[test]
fn a_new_plugin_has_no_data() {
    let plugin = AccountSlotTrackingPlugin::default();
    assert!(plugin.collect_data().is_empty());
    assert_eq!(plugin.name(), "Account Slot Tracking");
}

#[test]
fn checkpoints_are_claimed_once() {
    let mut plugin = AccountSlotTrackingPlugin::default();
    assert_eq!(plugin.checkpoints().interval, 50_000);
    assert!(!plugin.check_and_checkpoint(0));
    assert!(!plugin.check_and_checkpoint(49_999));
    assert!(plugin.check_and_checkpoint(50_000));
    assert!(!plugin.check_and_checkpoint(50_000));
    assert!(plugin.check_and_checkpoint(150_000));
    assert!(!plugin.check_and_checkpoint(100_000));
    assert_eq!(plugin.checkpoints().last_checkpoint_slot, 150_000);
}

fn saved(outcome: Result<PendingSave, SaveError>) -> PendingSave {
    match outcome {
        Ok(save) => save,
        Err(_) => panic!("the save came to nothing"),
    }
}

#[test]
fn a_save_writes_one_row_for_each_account() {
    let mut plugin = AccountSlotTrackingPlugin::default();
    assert_eq!(saved(plugin.save_checkpoint(Ok(()))).bytes, vec![0; 8]);

    apply(&mut plugin, &legacy(432_000 * 258, header(1, 0, 0), vec![key(4)]));
    let mut expected = vec![1, 0, 0, 0, 0, 0, 0, 0];
    expected.extend([4; 32]);
    // No epochs of reads, one of writes; no reads, one write.
    expected.extend([0, 0, 0, 0, 0, 0, 0, 0]);
    expected.extend([1, 0, 0, 0, 0, 0, 0, 0, 2, 1]);
    expected.extend([0, 0, 0, 0]);
    expected.extend([1, 0, 0, 0]);
    assert_eq!(saved(plugin.save_checkpoint(Ok(()))).bytes, expected);
    assert_eq!(saved(plugin.on_exit(Ok(()))).bytes, expected);
}

#[test]
fn a_saved_file_reads_back() {
    let mut plugin = AccountSlotTrackingPlugin::default();
    for epoch in 0..12u64 {
        apply(
            &mut plugin,
            &legacy(epoch * 432_000, header(1, 0, 1), vec![key(1), key(2)]),
        );
    }
    let save = saved(plugin.save_final_results("results.bin", Ok(())));
    let mut entries = read_entries(&save.bytes).unwrap();
    entries.sort_by_key(|entry| entry.account);
    assert_eq!(entries.len(), 2);
    let highest: Vec<u16> = (2..12).rev().collect();
    assert_eq!(entries[0].account, key(1));
    assert_eq!(entries[0].activity.top_write_epochs, highest);
    assert!(entries[0].activity.top_read_epochs.is_empty());
    assert_eq!(entries[0].activity.write_count, 12);
    assert_eq!(entries[0].activity.read_count, 0);
    assert_eq!(entries[1].account, key(2));
    assert_eq!(entries[1].activity.top_read_epochs, highest);
    assert_eq!(entries[1].activity.read_count, 12);

    let rows: Vec<(Pubkey, (Vec<u16>, Vec<u16>, u32, u32))> =
        bincode::deserialize(&save.bytes).unwrap();
    assert!(rows.contains(&(key(1), (vec![], highest.clone(), 0, 12))));
    assert!(rows.contains(&(key(2), (highest, vec![], 12, 0))));

    // What is saved stays in the table.
    assert_eq!(sorted(&plugin).len(), 2);
    assert_eq!(sorted(&plugin)[0].activity.write_count, 12);
}

#[test]
fn what_holds_no_entries_is_not_read() {
    assert!(read_entries(&[]).is_none());
    assert!(read_entries(&[1, 0, 0, 0, 0, 0, 0, 0, 7]).is_none());
    assert!(read_entries(&[0; 8]).unwrap().is_empty());
}

#[test]
fn entries_are_written_in_order() {
    let mut plugin = AccountSlotTrackingPlugin::default();
    apply(
        &mut plugin,
        &legacy(0, header(2, 0, 0), vec![key(9), key(3)]),
    );
    let save = saved(prepare_save(sorted(&plugin), "a"));
    assert_eq!(save.bytes[8..40], [3; 32]);
    assert_eq!(save.bytes.len(), 8 + 2 * (32 + 8 + 10 + 8));
    assert_eq!((save.filename, save.temp_filename), ("a".into(), "a.tmp".into()));
}

#[test]
fn without_the_lock_nothing_is_saved() {
    let plugin = AccountSlotTrackingPlugin::default();
    let reason = || Err(String::from("poisoned lock"));
    for outcome in [
        plugin.save_checkpoint(reason()),
        plugin.save_final_results("results.bin", reason()),
        plugin.on_exit(reason()),
    ] {
        match outcome {
            Err(SaveError::Lock(message)) => {
                assert_eq!(message, "Failed to acquire save mutex: poisoned lock");
                assert_eq!(
                    SaveError::Lock(message).state(),
                    SaveState::Failed(SaveStep::Lock)
                );
            }
            _ => panic!("nothing was to be saved"),
        }
    }
}

#[test]
fn entries_that_cannot_be_serialized_end_a_save() {
    let error = SaveError::Serialize(Box::new(bincode::ErrorKind::SizeLimit));
    assert_eq!(error.state(), SaveState::Failed(SaveStep::Serialize));
}

#[test]
fn the_accounts_of_a_transaction_are_told() {
    let transaction = legacy(7, header(2, 1, 1), vec![key(1), key(2), key(3), key(4)]);
    let (writable, readonly) = AccountSlotTrackingPlugin::accounts_of(&transaction);
    assert_eq!(writable, vec![key(1), key(3)]);
    assert_eq!(readonly, vec![key(2), key(4)]);
}

#[test]
fn saves_name_their_files() {
    let mut plugin = AccountSlotTrackingPlugin::default();
    apply(&mut plugin, &legacy(5, header(1, 0, 0), vec![key(4)]));

    let save = saved(plugin.save_checkpoint(Ok(())));
    assert_eq!(save.filename, CHECKPOINT_FILENAME);
    assert_eq!(save.filename, "account_activity_checkpoint.bin");
    assert_eq!(save.temp_filename, "account_activity_checkpoint.bin.tmp");
    assert_eq!(save.entries.len(), 1);
    assert_eq!(save.state, SaveState::Next(SaveStep::Create));

    let save = saved(plugin.save_final_results("results.bin", Ok(())));
    assert_eq!(save.filename, "results.bin");
    assert_eq!(save.temp_filename, "results.bin.tmp");
    assert_eq!(save.entries[0].account, key(4));

    let save = saved(plugin.on_exit(Ok(())));
    assert_eq!(save.filename, FINAL_RESULTS_FILENAME);
    assert_eq!(save.filename, "account_activity_final.bin");
    assert_eq!(save.temp_filename, "account_activity_final.bin.tmp");
}

#[test]
fn other_accounts_stay_as_they_are() {
    let mut plugin = AccountSlotTrackingPlugin::default();
    apply(&mut plugin, &legacy(0, header(1, 0, 0), vec![key(1)]));
    apply(
        &mut plugin,
        &legacy(432_000, header(1, 0, 1), vec![key(2), key(3)]),
    );
    let entries = sorted(&plugin);
    assert_eq!(entries[0].account, key(1));
    assert_eq!(entries[0].activity.top_write_epochs, vec![0]);
    assert_eq!(entries[0].activity.write_count, 1);
}

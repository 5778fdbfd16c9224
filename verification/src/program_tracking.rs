//! The plugin that tracks, for every account, in which epochs transactions
//! read it and wrote it.
use crate::activity::epochs_of;
use crate::activity::has_room_for;
use crate::activity::known;
use crate::activity::lemma_epochs_append;
use crate::activity::lemma_replay_append;
use crate::activity::lemma_replay_counts;
use crate::activity::lemma_replay_from_empty;
use crate::activity::lemma_table_sums_up_events;
use crate::activity::replay;
use crate::activity::ten_highest;
use crate::activity::Access;
use crate::activity::AccessEvent;
use crate::activity::AccountActivity;
use crate::activity::ActivityView;
use crate::activity_table::activity_contents;
use crate::activity_table::counts_in_map;
use crate::activity_table::entries_of_map;
use crate::activity_table::is_listing;
use crate::activity_table::lemma_listing_has_each_account;
use crate::activity_table::new_activity_map;
use crate::activity_table::record_in_map;
use crate::activity_table::AccountActivityEntry;
use crate::checkpoint::is_due;
use crate::checkpoint::CheckpointState;
use crate::checkpoint::DEFAULT_CHECKPOINT_INTERVAL;
use crate::epoch::epoch_of;
use crate::epoch::lemma_slot_lies_in_its_epoch;
use crate::epoch::slot_to_epoch;
use crate::message::lemma_keys_split_by_position;
use crate::message::MessageHeader;
use crate::message::Pubkey;
use crate::message::Transaction;
use crate::message::VersionedMessage;
use crate::save::lemma_next_after_success;
use crate::save::state_after_all;
use crate::save::temp_filename;
use crate::save::SaveState;
use crate::save::SaveStep;
use crate::stored::are_rows_of;
use crate::stored::lemma_stored_listing_reads_back;
use crate::stored::read_form;
use crate::stored::rows_of;
use crate::stored::serialize_entries;
use crate::stored::stored_form;
use crate::top_epochs::is_top;
use dashmap::DashMap;
use vstd::prelude::*;
use vstd::string::*;

verus! {

/// The file that holds the last checkpoint.
pub const CHECKPOINT_FILENAME: &'static str = "account_activity_checkpoint.bin";

/// The file that receives the results at the end.
pub const FINAL_RESULTS_FILENAME: &'static str = "account_activity_final.bin";

/// Tracks account activity and decides when to save it.
#[derive(Debug)]
pub struct AccountSlotTrackingPlugin {
    activity: DashMap<Pubkey, AccountActivity>,
    checkpoints: CheckpointState,
}

/// Entries that are to be saved in a file, the bytes that the file gets, and how
/// far the saving has come.
pub struct PendingSave {
    pub entries: Vec<AccountActivityEntry>,
    pub bytes: Vec<u8>,
    pub temp_filename: String,
    pub filename: String,
    pub state: SaveState,
}

/// Why a save came to nothing before any file was touched.
pub enum SaveError {
    /// The lock could not be acquired. Says so, with the reason.
    Lock(String),
    /// The entries could not be serialized.
    Serialize(Box<bincode::ErrorKind>),
}

impl SaveError {
    /// Where the save stopped.
    pub fn state(&self) -> (state: SaveState)
        ensures
            match self {
                SaveError::Lock(_) => state == state_after_all(seq![false]),
                SaveError::Serialize(_) => state == state_after_all(seq![true, false]),
            },
    {
        proof {
            reveal_with_fuel(state_after_all, 3);
            assert(seq![false].drop_last() =~= Seq::<bool>::empty());
            assert(seq![true, false].drop_last() =~= seq![true]);
            assert(seq![true].drop_last() =~= Seq::<bool>::empty());
        }
        match self {
            SaveError::Lock(_) => SaveState::begin().advance(false),
            SaveError::Serialize(_) => SaveState::begin().advance(true).advance(false),
        }
    }
}

/// `save` is about to write `entries` to the file `filename`, by way of a
/// temporary file. What it writes reads back as the same entries.
pub open spec fn is_save_of(
    save: PendingSave,
    entries: Seq<AccountActivityEntry>,
    filename: Seq<char>,
) -> bool {
    &&& save.entries@ == entries
    &&& save.bytes@ == stored_form(rows_of(entries))
    &&& read_form(save.bytes@) == Some(rows_of(entries))
    &&& save.temp_filename@ == filename + ".tmp"@
    &&& save.filename@ == filename
    &&& save.state == state_after_all(seq![true, true])
}

/// `outcome` is what may come of saving `table` in the file `filename`, given
/// whether the lock could be acquired: with the lock, a save of a listing of the
/// table; without it, an error that gives the reason. The order of the listing
/// is open.
pub open spec fn saves_table(
    outcome: Result<PendingSave, SaveError>,
    table: Map<Seq<u8>, ActivityView>,
    filename: Seq<char>,
    lock: Result<(), String>,
) -> bool {
    match lock {
        Err(reason) => outcome matches Err(SaveError::Lock(message)) && message@
            == "Failed to acquire save mutex: "@ + reason@,
        Ok(_) => outcome matches Ok(save) && is_listing(save.entries@, table) && is_save_of(
            save,
            save.entries@,
            filename,
        ),
    }
}

/// Puts together what has to be written in order to save `entries` in the file
/// `filename`. Any entries can be saved.
pub fn prepare_save(entries: Vec<AccountActivityEntry>, filename: &str) -> (outcome: Result<
    PendingSave,
    SaveError,
>)
    ensures
        outcome matches Ok(save) && is_save_of(save, entries@, filename@),
{
    let bytes: Vec<u8> = match serialize_entries(&entries) {
        Ok(bytes) => bytes,
        Err(error) => return Err(SaveError::Serialize(error)),
    };
    proof {
        reveal_with_fuel(state_after_all, 3);
        assert(seq![true, true].drop_last() =~= seq![true]);
        assert(seq![true].drop_last() =~= Seq::<bool>::empty());
    }
    Ok(
        PendingSave {
            entries,
            bytes,
            temp_filename: temp_filename(filename),
            filename: filename.to_owned(),
            state: SaveState::begin().advance(true).advance(true),
        },
    )
}

/// A save that came about writes one row for each account of the table, with
/// its activity, and no other row.
pub proof fn lemma_saved_table_reads_back(
    save: PendingSave,
    table: Map<Seq<u8>, ActivityView>,
    filename: Seq<char>,
    lock: Result<(), String>,
)
    requires
        saves_table(Ok(save), table, filename, lock),
    ensures
        read_form(save.bytes@) matches Some(rows) && are_rows_of(rows, table),
        read_form(save.bytes@) matches Some(rows) && rows.len() == table.dom().len() && (forall|
            account: Seq<u8>,
        | #[trigger]
            table.contains_key(account) ==> rows.contains((account, table[account]))),
{
    lemma_stored_listing_reads_back(save.entries@, table, save.bytes@);
}

/// With the lock there is a save, of as many entries as the table has accounts,
/// which goes on with the creation of the temporary file; that file has the name
/// of the file with `.tmp` behind it. Without the lock there is no save, but an
/// error that gives the reason.
pub proof fn lemma_save_needs_only_the_lock(
    outcome: Result<PendingSave, SaveError>,
    table: Map<Seq<u8>, ActivityView>,
    filename: Seq<char>,
    lock: Result<(), String>,
)
    requires
        saves_table(outcome, table, filename, lock),
    ensures
        lock is Ok <==> outcome is Ok,
        outcome matches Ok(save) ==> {
            &&& save.entries@.len() == table.dom().len()
            &&& save.bytes@ == stored_form(rows_of(save.entries@))
            &&& save.filename@ == filename
            &&& save.temp_filename@.len() == filename.len() + 4
            &&& save.temp_filename@.take(filename.len() as int) == filename
            &&& save.temp_filename@.skip(filename.len() as int) == seq!['.', 't', 'm', 'p']
            &&& save.state == SaveState::Next(SaveStep::Create)
        },
        lock matches Err(reason) ==> (outcome matches Err(SaveError::Lock(message)) && message@
            == "Failed to acquire save mutex: "@ + reason@),
{
    if let Ok(save) = outcome {
        lemma_listing_has_each_account(save.entries@, table);
        lemma_next_after_success(seq![true, true], SaveStep::Create);
        reveal_strlit(".tmp");
        assert(save.temp_filename@.take(filename.len() as int) =~= filename);
        assert(save.temp_filename@.skip(filename.len() as int) =~= seq!['.', 't', 'm', 'p']);
    }
}

/// The same use of each of the accounts `keys`, in order.
pub open spec fn events_of(keys: Seq<Pubkey>, access: Access, epoch: u16) -> Seq<AccessEvent> {
    Seq::new(keys.len(), |i: int| AccessEvent { account: keys[i]@, access, epoch })
}

/// How a transaction uses its accounts, in the epoch of its slot: the accounts
/// that it writes, then those that it only reads.
pub open spec fn transaction_events(transaction: Transaction) -> Seq<AccessEvent> {
    let message = transaction.message.inner();
    let keys = message.account_keys@;
    let epoch = epoch_of(transaction.slot) as u16;
    events_of(message.header.writable(keys), Access::Write, epoch) + events_of(
        message.header.readonly(keys),
        Access::Read,
        epoch,
    )
}

/// How a run of transactions uses its accounts.
pub open spec fn history_events(transactions: Seq<Transaction>) -> Seq<AccessEvent>
    decreases transactions.len(),
{
    if transactions.len() == 0 {
        Seq::empty()
    } else {
        history_events(transactions.drop_last()) + transaction_events(transactions.last())
    }
}

/// The activity table of a new plugin after a run of transactions.
pub open spec fn table_after(transactions: Seq<Transaction>) -> Map<Seq<u8>, ActivityView>
    decreases transactions.len(),
{
    if transactions.len() == 0 {
        Map::empty()
    } else {
        replay(table_after(transactions.drop_last()), transaction_events(transactions.last()))
    }
}

/// A transaction uses each of its account keys once. Of the signers it only reads
/// the last `num_readonly_signed_accounts`, of the other keys the last
/// `num_readonly_unsigned_accounts`; all others it writes. What it writes comes
/// before what it reads, both in the order of the keys. All this happens in the
/// epoch in which its slot lies.
pub proof fn lemma_transaction_uses_each_key(transaction: Transaction, i: int)
    requires
        ({
            let message = transaction.message.inner();
            let header = message.header;
            &&& header.num_readonly_signed_accounts <= header.num_required_signatures
            &&& header.num_required_signatures + header.num_readonly_unsigned_accounts
                <= message.account_keys@.len()
            &&& 0 <= i < message.account_keys@.len()
        }),
    ensures
        ({
            let message = transaction.message.inner();
            let keys = message.account_keys@;
            let signers = message.header.num_required_signatures as int;
            let read_signers = message.header.num_readonly_signed_accounts as int;
            let read_others = message.header.num_readonly_unsigned_accounts as int;
            let events = transaction_events(transaction);
            let read = signers - read_signers <= i < signers || i >= keys.len() - read_others;
            let written = keys.len() - read_signers - read_others;
            let place = if i < signers - read_signers {
                i
            } else if i < signers {
                written + i - (signers - read_signers)
            } else if i < keys.len() - read_others {
                i - read_signers
            } else {
                written + read_signers + i - (keys.len() - read_others)
            };
            &&& events.len() == keys.len()
            &&& 0 <= place < events.len()
            &&& events[place].account == keys[i]@
            &&& read ==> events[place].access == Access::Read && place >= written
            &&& !read ==> events[place].access == Access::Write && place < written
            &&& events[place].epoch == epoch_of(transaction.slot)
            &&& transaction.slot < 28_311_552_000 ==> events[place].epoch * 432_000
                <= transaction.slot < (events[place].epoch + 1) * 432_000
        }),
{
    let message = transaction.message.inner();
    lemma_keys_split_by_position(message.header, message.account_keys@);
    let times = lemma_slot_lies_in_its_epoch(transaction.slot);
}

/// The events of a run of transactions are those of each transaction, one after
/// the other.
pub proof fn lemma_history_adds_up(
    first: Seq<Transaction>,
    second: Seq<Transaction>,
    single: Transaction,
)
    ensures
        history_events(Seq::empty()) == Seq::<AccessEvent>::empty(),
        history_events(seq![single]) == transaction_events(single),
        history_events(first + second) == history_events(first) + history_events(second),
    decreases second.len(),
{
    let none = Seq::<Transaction>::empty();
    assert(seq![single].drop_last() =~= none);
    assert(history_events(none) =~= Seq::<AccessEvent>::empty());
    assert(history_events(none) + transaction_events(single) =~= transaction_events(single));
    if second.len() == 0 {
        assert(first + second =~= first);
        assert(history_events(first) + history_events(second) =~= history_events(first));
    } else {
        lemma_history_adds_up(first, second.drop_last(), single);
        assert((first + second).drop_last() =~= first + second.drop_last());
        assert(history_events(first + second) =~= history_events(first) + history_events(second));
    }
}

/// After any run of transactions the table has, for each account that they use,
/// the number of times that they read it and that they write it, and of the
/// epochs of these uses the ten highest.
pub proof fn lemma_table_counts_uses(transactions: Seq<Transaction>, account: Seq<u8>)
    ensures
        table_after(transactions).contains_key(account) <==> exists|i: int|
            0 <= i < history_events(transactions).len() && (#[trigger] history_events(
                transactions,
            )[i]).account == account,
        table_after(transactions).contains_key(account) ==> ({
            let entry = table_after(transactions)[account];
            let reads = history_events(transactions).filter(
                |event: AccessEvent| event.account == account && event.access == Access::Read,
            );
            let writes = history_events(transactions).filter(
                |event: AccessEvent| event.account == account && event.access == Access::Write,
            );
            &&& entry.read_count == reads.len()
            &&& entry.write_count == writes.len()
            &&& ten_highest(
                entry.top_read_epochs,
                reads.map_values(|event: AccessEvent| event.epoch),
            )
            &&& ten_highest(
                entry.top_write_epochs,
                writes.map_values(|event: AccessEvent| event.epoch),
            )
        }),
{
    lemma_table_is_replay(transactions);
    lemma_table_sums_up_events(history_events(transactions), account);
}

/// After any run of transactions the table holds exactly the accounts that
/// they use. For each it has the number of reads and of writes, and the
/// highest epochs of the reads and of the writes, in descending order.
pub proof fn lemma_table_sums_up_transactions(
    transactions: Seq<Transaction>,
    account: Seq<u8>,
    access: Access,
)
    ensures
        table_after(transactions).contains_key(account) <==> exists|i: int|
            0 <= i < history_events(transactions).len() && (#[trigger] history_events(
                transactions,
            )[i]).account == account,
        known(table_after(transactions), account).count(access) == epochs_of(
            history_events(transactions),
            account,
            access,
        ).len(),
        is_top(
            known(table_after(transactions), account).top(access),
            epochs_of(history_events(transactions), account, access).to_set(),
        ),
{
    lemma_table_is_replay(transactions);
    lemma_replay_from_empty(history_events(transactions), account, access);
}

proof fn lemma_table_is_replay(transactions: Seq<Transaction>)
    ensures
        table_after(transactions) == replay(Map::empty(), history_events(transactions)),
    decreases transactions.len(),
{
    if transactions.len() > 0 {
        let rest = transactions.drop_last();
        lemma_table_is_replay(rest);
        lemma_replay_append(
            Map::empty(),
            history_events(rest),
            transaction_events(transactions.last()),
        );
    }
}

/// A legacy message and a versioned one with the same header and the same
/// account keys leave the same events.
pub proof fn lemma_message_version_is_irrelevant(first: Transaction, second: Transaction)
    requires
        first.slot == second.slot,
        first.message.inner().header == second.message.inner().header,
        first.message.inner().account_keys@ == second.message.inner().account_keys@,
    ensures
        transaction_events(first) == transaction_events(second),
{
}

/// The accesses of one batch concern one kind only.
proof fn lemma_events_of_one_kind(
    keys: Seq<Pubkey>,
    access: Access,
    epoch: u16,
    account: Seq<u8>,
    other: Access,
)
    ensures
        other != access ==> epochs_of(events_of(keys, access, epoch), account, other).len() == 0,
        epochs_of(events_of(keys, access, epoch), account, access).len() == occurrences(
            keys,
            account,
        ),
    decreases keys.len(),
{
    let events = events_of(keys, access, epoch);
    if keys.len() > 0 {
        lemma_events_of_one_kind(keys.drop_last(), access, epoch, account, other);
        assert(events.drop_last() =~= events_of(keys.drop_last(), access, epoch));
    }
}

/// How often `account` occurs among `keys`.
spec fn occurrences(keys: Seq<Pubkey>, account: Seq<u8>) -> nat
    decreases keys.len(),
{
    if keys.len() == 0 {
        0
    } else {
        occurrences(keys.drop_last(), account) + if keys.last()@ == account {
            1nat
        } else {
            0nat
        }
    }
}

/// The counter of one kind of `account` can take one access for each time that
/// the account occurs among `keys`.
spec fn batch_fits(
    table: Map<Seq<u8>, ActivityView>,
    keys: Seq<Pubkey>,
    access: Access,
    account: Seq<u8>,
) -> bool {
    occurrences(keys, account) > 0 ==> known(table, account).count(access) + occurrences(
        keys,
        account,
    ) <= u32::MAX
}

proof fn lemma_occurrence(keys: Seq<Pubkey>, account: Seq<u8>)
    ensures
        occurrences(keys, account) > 0 <==> exists|k: int|
            0 <= k < keys.len() && (#[trigger] keys[k])@ == account,
    decreases keys.len(),
{
    if keys.len() > 0 {
        let rest = keys.drop_last();
        lemma_occurrence(rest, account);
        if keys.last()@ == account {
            assert(keys[keys.len() - 1]@ == account);
        }
        if exists|k: int| 0 <= k < rest.len() && (#[trigger] rest[k])@ == account {
            let k = choose|k: int| 0 <= k < rest.len() && (#[trigger] rest[k])@ == account;
            assert(keys[k]@ == account);
        }
        if exists|k: int| 0 <= k < keys.len() && (#[trigger] keys[k])@ == account {
            let k = choose|k: int| 0 <= k < keys.len() && (#[trigger] keys[k])@ == account;
            if k < rest.len() {
                assert(rest[k]@ == account);
            }
        }
    }
}

/// A prefix uses no account more often than the whole, and less often than the
/// whole if it stops before a use.
proof fn lemma_prefix_uses(
    events: Seq<AccessEvent>,
    count: int,
    account: Seq<u8>,
    access: Access,
)
    requires
        0 <= count <= events.len(),
    ensures
        epochs_of(events.take(count), account, access).len() <= epochs_of(
            events,
            account,
            access,
        ).len(),
        count < events.len() && events[count].account == account && events[count].access == access
            ==> epochs_of(events.take(count), account, access).len() < epochs_of(
            events,
            account,
            access,
        ).len(),
    decreases events.len() - count,
{
    if count == events.len() {
        assert(events.take(count) =~= events);
    } else {
        lemma_prefix_uses(events, count + 1, account, access);
        assert(events.take(count + 1).drop_last() =~= events.take(count));
        assert(events.take(count + 1).last() == events[count]);
    }
}

/// Whether two addresses are the same.
fn same_key(first: &Pubkey, second: &Pubkey) -> (same: bool)
    ensures
        same == (first@ == second@),
{
    let mut i: usize = 0;
    while i < 32
        invariant
            i <= 32,
            forall|k: int| 0 <= k < i ==> first@[k] == second@[k],
        decreases 32 - i,
    {
        if first[i] != second[i] {
            return false;
        }
        i += 1;
    }
    assert(first@ =~= second@);
    true
}

/// How often `account` occurs among `keys`.
fn count_occurrences(keys: &Vec<Pubkey>, account: &Pubkey) -> (count: usize)
    ensures
        count == occurrences(keys@, account@),
{
    let mut count: usize = 0;
    let mut i: usize = 0;
    while i < keys.len()
        invariant
            i <= keys@.len(),
            count <= i,
            count == occurrences(keys@.take(i as int), account@),
        decreases keys@.len() - i,
    {
        assert(keys@.take(i + 1).drop_last() =~= keys@.take(i as int));
        if same_key(&keys[i], account) {
            count += 1;
        }
        i += 1;
    }
    assert(keys@.take(i as int) =~= keys@);
    count
}

impl Default for AccountSlotTrackingPlugin {
    fn default() -> (plugin: Self)
        ensures
            plugin.table() == Map::<Seq<u8>, ActivityView>::empty(),
            plugin.checkpoint_state().interval == DEFAULT_CHECKPOINT_INTERVAL,
            plugin.checkpoint_state().interval == 50_000,
            plugin.checkpoint_state().last_checkpoint_slot == 0,
    {
        AccountSlotTrackingPlugin {
            activity: new_activity_map(),
            checkpoints: CheckpointState::default(),
        }
    }
}

impl AccountSlotTrackingPlugin {
    /// The activity of each account that was used.
    pub closed spec fn table(&self) -> Map<Seq<u8>, ActivityView> {
        activity_contents(self.activity)
    }

    /// When checkpoints are due, and which was the last.
    pub closed spec fn checkpoint_state(&self) -> CheckpointState {
        self.checkpoints
    }

    /// When checkpoints are due, and which was the last.
    pub fn checkpoints(&self) -> (checkpoints: CheckpointState)
        ensures
            checkpoints == self.checkpoint_state(),
    {
        self.checkpoints
    }

    /// The name under which the plugin is known.
    pub fn name(&self) -> (name: &'static str)
        ensures
            name@ == "Account Slot Tracking"@,
    {
        "Account Slot Tracking"
    }

    /// Extract writable and readonly accounts from message header and account keys.
    /// Works for both Legacy and V0 messages since they have the same structure.
    pub fn extract_account_access(header: &MessageHeader, account_keys: &[Pubkey]) -> (access: (
        Vec<Pubkey>,
        Vec<Pubkey>,
    ))
        requires
            header.fits(account_keys@.len()),
        ensures
            access.0@ == header.writable(account_keys@),
            access.1@ == header.readonly(account_keys@),
            access.1@.len() == header.num_readonly_signed_accounts
                + header.num_readonly_unsigned_accounts,
            access.0@.len() + access.1@.len() == account_keys@.len(),
            forall|i: int|
                0 <= i < account_keys@.len() ==> ({
                    let key = #[trigger] account_keys@[i];
                    let signers = header.num_required_signatures as int;
                    let read_signers = header.num_readonly_signed_accounts as int;
                    let from = account_keys@.len() - header.num_readonly_unsigned_accounts;
                    if i < signers - read_signers {
                        access.0@[i] == key
                    } else if i < signers {
                        access.1@[i - (signers - read_signers)] == key
                    } else if i < from {
                        access.0@[i - read_signers] == key
                    } else {
                        access.1@[read_signers + i - from] == key
                    }
                }),
    {
        proof {
            lemma_keys_split_by_position(*header, account_keys@);
        }
        let num_required_signatures: usize = header.num_required_signatures as usize;
        let num_readonly_signed_accounts: usize = header.num_readonly_signed_accounts as usize;
        let num_readonly_unsigned_accounts: usize = header.num_readonly_unsigned_accounts as usize;

        let writable_signed_end: usize = num_required_signatures - num_readonly_signed_accounts;
        let readonly_signed_end: usize = num_required_signatures;
        let writable_unsigned_end: usize = account_keys.len() - num_readonly_unsigned_accounts;

        let mut writable: Vec<Pubkey> = Vec::new();
        let mut readonly: Vec<Pubkey> = Vec::new();

        // Writable signed accounts
        Self::extend(&mut writable, account_keys, 0, writable_signed_end);
        // Read-only signed accounts
        Self::extend(&mut readonly, account_keys, writable_signed_end, readonly_signed_end);
        // Writable unsigned accounts
        Self::extend(&mut writable, account_keys, readonly_signed_end, writable_unsigned_end);
        // Read-only unsigned accounts
        Self::extend(&mut readonly, account_keys, writable_unsigned_end, account_keys.len());

        (writable, readonly)
    }

    /// Adds the keys from position `from` to before position `to`.
    fn extend(list: &mut Vec<Pubkey>, account_keys: &[Pubkey], from: usize, to: usize)
        requires
            from <= to <= account_keys@.len(),
        ensures
            final(list)@ == old(list)@ + account_keys@.subrange(from as int, to as int),
    {
        let mut i: usize = from;
        while i < to
            invariant
                from <= i <= to <= account_keys@.len(),
                list@ == old(list)@ + account_keys@.subrange(from as int, i as int),
            decreases to - i,
        {
            list.push(account_keys[i]);
            i += 1;
            assert(list@ =~= old(list)@ + account_keys@.subrange(from as int, i as int));
        }
    }

    /// Check if we should create a checkpoint, and claim it for the caller if so.
    /// The caller that gets it saves a checkpoint; whether that succeeds does not
    /// matter to the next one.
    pub fn check_and_checkpoint(&mut self, current_slot: u64) -> (claimed: bool)
        requires
            old(self).checkpoint_state().interval > 0,
        ensures
            claimed == is_due(
                old(self).checkpoint_state().interval,
                current_slot,
                old(self).checkpoint_state().last_checkpoint_slot,
            ),
            final(self).checkpoint_state().last_checkpoint_slot == if claimed {
                current_slot
            } else {
                old(self).checkpoint_state().last_checkpoint_slot
            },
            claimed <==> current_slot % old(self).checkpoint_state().interval == 0 && current_slot
                > old(self).checkpoint_state().last_checkpoint_slot,
            final(self).checkpoint_state().interval == old(self).checkpoint_state().interval,
            final(self).table() == old(self).table(),
    {
        let last_checkpoint: u64 = self.checkpoints.last_checkpoint_slot;
        if self.checkpoints.checkpoint_is_due(current_slot, last_checkpoint) {
            self.checkpoints.claim(current_slot, last_checkpoint)
        } else {
            false
        }
    }

    /// Collects all account activity data.
    pub fn collect_data(&self) -> (entries: Vec<AccountActivityEntry>)
        ensures
            is_listing(entries@, self.table()),
    {
        entries_of_map(&self.activity)
    }

    /// What has to be written in order to save all account activity in the file
    /// `filename`, given whether the lock could be acquired.
    fn save(&self, filename: &str, lock: Result<(), String>) -> (outcome: Result<
        PendingSave,
        SaveError,
    >)
        ensures
            saves_table(outcome, self.table(), filename@, lock),
    {
        match lock {
            Ok(_) => prepare_save(self.collect_data(), filename),
            Err(reason) => {
                let mut message = "Failed to acquire save mutex: ".to_owned();
                message.append(reason.as_str());
                Err(SaveError::Lock(message))
            },
        }
    }

    /// What a checkpoint writes, and where. `lock` tells whether the save mutex
    /// could be acquired, or why not.
    pub fn save_checkpoint(&self, lock: Result<(), String>) -> (outcome: Result<
        PendingSave,
        SaveError,
    >)
        ensures
            saves_table(outcome, self.table(), CHECKPOINT_FILENAME@, lock),
    {
        self.save(CHECKPOINT_FILENAME, lock)
    }

    /// What the final results are, and where they are written. `lock` tells
    /// whether the save mutex could be acquired, or why not.
    pub fn save_final_results(&self, filename: &str, lock: Result<(), String>) -> (outcome: Result<
        PendingSave,
        SaveError,
    >)
        ensures
            saves_table(outcome, self.table(), filename@, lock),
    {
        self.save(filename, lock)
    }

    /// What is written when the plugin is unloaded.
    pub fn on_exit(&self, lock: Result<(), String>) -> (outcome: Result<PendingSave, SaveError>)
        ensures
            saves_table(outcome, self.table(), FINAL_RESULTS_FILENAME@, lock),
    {
        self.save_final_results(FINAL_RESULTS_FILENAME, lock)
    }

    /// Whether the counters of all accounts that the transaction uses can take
    /// its accesses.
    pub fn has_room(&self, transaction: &Transaction) -> (room: bool)
        requires
            transaction.message.is_consistent(),
        ensures
            room == has_room_for(self.table(), transaction_events(*transaction)),
    {
        let (writable_accounts, readonly_accounts) = Self::accounts_of(transaction);
        let room: bool = self.has_room_for_batch(&writable_accounts, Access::Write)
            && self.has_room_for_batch(&readonly_accounts, Access::Read);
        proof {
            let epoch = epoch_of(transaction.slot) as u16;
            let writes = events_of(writable_accounts@, Access::Write, epoch);
            let reads = events_of(readonly_accounts@, Access::Read, epoch);
            assert forall|account: Seq<u8>, access: Access| true implies #[trigger] epochs_of(
                writes + reads,
                account,
                access,
            ).len() == occurrences(
                (if access == Access::Write {
                    writable_accounts@
                } else {
                    readonly_accounts@
                }),
                account,
            ) by {
                lemma_epochs_append(writes, reads, account, access);
                lemma_events_of_one_kind(
                    writable_accounts@,
                    Access::Write,
                    epoch,
                    account,
                    access,
                );
                lemma_events_of_one_kind(readonly_accounts@, Access::Read, epoch, account, access);
            }
            if room {
                assert forall|account: Seq<u8>, access: Access|
                    (#[trigger] epochs_of(writes + reads, account, access)).len() > 0 implies known(
                    self.table(),
                    account,
                ).count(access) + epochs_of(writes + reads, account, access).len() <= u32::MAX by {
                    let keys = if access == Access::Write {
                        writable_accounts@
                    } else {
                        readonly_accounts@
                    };
                    assert(batch_fits(self.table(), keys, access, account));
                }
            } else {
                let access = if exists|account: Seq<u8>|
                    !batch_fits(self.table(), writable_accounts@, Access::Write, account) {
                    Access::Write
                } else {
                    Access::Read
                };
                let keys = if access == Access::Write {
                    writable_accounts@
                } else {
                    readonly_accounts@
                };
                let account = choose|account: Seq<u8>| !batch_fits(self.table(), keys, access, account);
                assert(!batch_fits(self.table(), keys, access, account));
                assert(epochs_of(writes + reads, account, access).len() == occurrences(
                    keys,
                    account,
                ));
            }
        }
        room
    }

    /// Whether the counters of one kind of all `accounts` can take one access
    /// for each time that an account is listed.
    fn has_room_for_batch(&self, accounts: &Vec<Pubkey>, access: Access) -> (room: bool)
        ensures
            room == forall|account: Seq<u8>| batch_fits(self.table(), accounts@, access, account),
    {
        let mut i: usize = 0;
        while i < accounts.len()
            invariant
                i <= accounts@.len(),
                forall|k: int|
                    0 <= k < i ==> batch_fits(
                        self.table(),
                        accounts@,
                        access,
                        (#[trigger] accounts@[k])@,
                    ),
            decreases accounts@.len() - i,
        {
            let count: u32 = match counts_in_map(&self.activity, &accounts[i]) {
                Some((reads, writes)) => match access {
                    Access::Read => reads,
                    Access::Write => writes,
                },
                None => 0,
            };
            let more: usize = count_occurrences(accounts, &accounts[i]);
            if more > (u32::MAX - count) as usize {
                proof {
                    lemma_occurrence(accounts@, accounts@[i as int]@);
                    assert(!batch_fits(self.table(), accounts@, access, accounts@[i as int]@));
                }
                return false;
            }
            i += 1;
        }
        assert forall|account: Seq<u8>| batch_fits(self.table(), accounts@, access, account) by {
            lemma_occurrence(accounts@, account);
            if occurrences(accounts@, account) > 0 {
                let k = choose|k: int| 0 <= k < accounts@.len() && accounts@[k]@ == account;
                assert(batch_fits(self.table(), accounts@, access, accounts@[k]@));
            }
        }
        true
    }

    /// The accounts that a transaction writes and those that it only reads.
    pub fn accounts_of(transaction: &Transaction) -> (access: (Vec<Pubkey>, Vec<Pubkey>))
        requires
            transaction.message.is_consistent(),
        ensures
            access.0@ == transaction.message.inner().header.writable(
                transaction.message.inner().account_keys@,
            ),
            access.1@ == transaction.message.inner().header.readonly(
                transaction.message.inner().account_keys@,
            ),
    {
        match &transaction.message {
            VersionedMessage::Legacy(message) => Self::extract_account_access(
                &message.header,
                message.account_keys.as_slice(),
            ),
            VersionedMessage::V0(message) => Self::extract_account_access(
                &message.header,
                message.account_keys.as_slice(),
            ),
        }
    }

    /// Update account activity tracking with the accounts of a transaction:
    /// those that it writes, then those that it only reads.
    pub fn on_transaction(&mut self, transaction: &Transaction)
        requires
            transaction.message.is_consistent(),
            has_room_for(old(self).table(), transaction_events(*transaction)),
        ensures
            final(self).table() == replay(old(self).table(), transaction_events(*transaction)),
            final(self).checkpoint_state() == old(self).checkpoint_state(),
    {
        let epoch: u16 = slot_to_epoch(transaction.slot);
        let (writable_accounts, readonly_accounts) = Self::accounts_of(transaction);
        let ghost writes = events_of(writable_accounts@, Access::Write, epoch);
        let ghost reads = events_of(readonly_accounts@, Access::Read, epoch);
        proof {
            assert forall|account: Seq<u8>, access: Access|
                (#[trigger] epochs_of(writes, account, access)).len() > 0 implies known(
                old(self).table(),
                account,
            ).count(access) + epochs_of(writes, account, access).len() <= u32::MAX by {
                lemma_epochs_append(writes, reads, account, access);
                assert(epochs_of(writes + reads, account, access).len() >= epochs_of(
                    writes,
                    account,
                    access,
                ).len());
            }
        }
        // Process writable accounts (write access)
        self.record_batch(&writable_accounts, Access::Write, epoch);
        proof {
            assert forall|account: Seq<u8>, access: Access|
                (#[trigger] epochs_of(reads, account, access)).len() > 0 implies known(
                self.table(),
                account,
            ).count(access) + epochs_of(reads, account, access).len() <= u32::MAX by {
                lemma_epochs_append(writes, reads, account, access);
                lemma_replay_counts(old(self).table(), writes, account, access);
                assert(epochs_of(writes + reads, account, access).len() == epochs_of(
                    writes,
                    account,
                    access,
                ).len() + epochs_of(reads, account, access).len());
            }
        }
        // Process readonly accounts (read access)
        self.record_batch(&readonly_accounts, Access::Read, epoch);
        proof {
            lemma_replay_append(old(self).table(), writes, reads);
        }
    }

    /// Notes the same use of each of the accounts, in order.
    fn record_batch(&mut self, accounts: &Vec<Pubkey>, access: Access, epoch: u16)
        requires
            has_room_for(old(self).table(), events_of(accounts@, access, epoch)),
        ensures
            final(self).table() == replay(old(self).table(), events_of(accounts@, access, epoch)),
            final(self).checkpoint_state() == old(self).checkpoint_state(),
    {
        let ghost events = events_of(accounts@, access, epoch);
        let mut i: usize = 0;
        while i < accounts.len()
            invariant
                i <= accounts@.len(),
                events == events_of(accounts@, access, epoch),
                has_room_for(old(self).table(), events),
                self.table() == replay(old(self).table(), events.take(i as int)),
                self.checkpoints == old(self).checkpoints,
            decreases accounts@.len() - i,
        {
            let account: Pubkey = accounts[i];
            proof {
                lemma_prefix_uses(events, i as int, account@, access);
                lemma_replay_counts(old(self).table(), events.take(i as int), account@, access);
                assert(known(old(self).table(), account@).count(access) + epochs_of(
                    events,
                    account@,
                    access,
                ).len() <= u32::MAX);
                assert(events.take(i + 1).drop_last() =~= events.take(i as int));
                assert(events.take(i + 1).last() == events[i as int]);
            }
            record_in_map(&mut self.activity, account, access, epoch);
            i += 1;
        }
        assert(events.take(i as int) =~= events);
    }
}

} // verus!

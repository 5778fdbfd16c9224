//! The form in which account activity is kept in a file.
use crate::activity::AccountActivity;
use crate::activity::ActivityView;
use crate::activity_table::is_listing;
use crate::activity_table::lemma_listing_has_each_account;
use crate::activity_table::AccountActivityEntry;
use crate::message::Pubkey;
use vstd::prelude::*;

verus! {

/// The contents of entries: each account with its activity, in order.
pub open spec fn rows_of(entries: Seq<AccountActivityEntry>) -> Seq<(Seq<u8>, ActivityView)> {
    Seq::new(entries.len(), |i: int| (entries[i].account@, entries[i].activity@))
}

/// The bytes that `bincode::serialize` gives for a list of rows.
pub uninterp spec fn stored_form(rows: Seq<(Seq<u8>, ActivityView)>) -> Seq<u8>;

/// The list of rows that `bincode::deserialize` reads from bytes, or `None`
/// where it fails.
pub uninterp spec fn read_form(bytes: Seq<u8>) -> Option<Seq<(Seq<u8>, ActivityView)>>;

/// A row as it is written: the account, then its activity with the epochs of
/// its reads, those of its writes, the number of reads and that of writes.
pub type WrittenRow<'a> = (&'a Pubkey, (&'a Vec<u16>, &'a Vec<u16>, u32, u32));

/// A row as it is read.
pub type ReadRow = (Pubkey, (Vec<u16>, Vec<u16>, u32, u32));

/// The contents of a row.
pub open spec fn row(
    account: Pubkey,
    top_read_epochs: Vec<u16>,
    top_write_epochs: Vec<u16>,
    read_count: u32,
    write_count: u32,
) -> (Seq<u8>, ActivityView) {
    (
        account@,
        ActivityView {
            top_read_epochs: top_read_epochs@,
            top_write_epochs: top_write_epochs@,
            read_count: read_count as nat,
            write_count: write_count as nat,
        },
    )
}

/// The contents of rows that are written.
pub open spec fn written_rows(rows: Seq<WrittenRow>) -> Seq<(Seq<u8>, ActivityView)> {
    rows.map_values(
        |written: WrittenRow|
            row(*written.0, *(written.1).0, *(written.1).1, (written.1).2, (written.1).3),
    )
}

/// The contents of rows that were read.
pub open spec fn read_rows(rows: Seq<ReadRow>) -> Seq<(Seq<u8>, ActivityView)> {
    rows.map_values(
        |read: ReadRow| row(read.0, (read.1).0, (read.1).1, (read.1).2, (read.1).3),
    )
}

/// Calls `bincode::serialize`. It sets no limit on the size and writes to a
/// vector, and the rows are made of numbers and of lists whose lengths are known,
/// so it succeeds. The bytes depend on the contents of the rows alone and are
/// named by [`stored_form`]. Numbers are written in full, and lists after their
/// lengths, so `bincode::deserialize` reads from the bytes what was written.
#[verifier::external_body]
pub(crate) fn serialize_rows(rows: &Vec<WrittenRow>) -> (stored: Result<
    Vec<u8>,
    Box<bincode::ErrorKind>,
>)
    ensures
        match stored {
            Ok(bytes) => {
                &&& bytes@ == stored_form(written_rows(rows@))
                &&& read_form(bytes@) == Some(written_rows(rows@))
            },
            Err(_) => false,
        },
{
    bincode::serialize(rows)
}

/// Calls `bincode::deserialize`. The outcome depends on the bytes alone and is
/// named by [`read_form`].
#[verifier::external_body]
pub(crate) fn deserialize_rows(bytes: &[u8]) -> (rows: Result<
    Vec<ReadRow>,
    Box<bincode::ErrorKind>,
>)
    ensures
        match rows {
            Ok(rows) => read_form(bytes@) == Some(read_rows(rows@)),
            Err(_) => read_form(bytes@) is None,
        },
{
    bincode::deserialize(bytes)
}

/// The bytes that a file gets which holds `entries`.
pub fn serialize_entries(entries: &Vec<AccountActivityEntry>) -> (stored: Result<
    Vec<u8>,
    Box<bincode::ErrorKind>,
>)
    ensures
        stored matches Ok(bytes) && bytes@ == stored_form(rows_of(entries@)) && read_form(bytes@)
            == Some(rows_of(entries@)),
{
    let mut rows: Vec<WrittenRow> = Vec::new();
    let mut i: usize = 0;
    while i < entries.len()
        invariant
            i <= entries@.len(),
            written_rows(rows@) == rows_of(entries@.take(i as int)),
        decreases entries@.len() - i,
    {
        let activity: &AccountActivity = &entries[i].activity;
        let ghost before = rows@;
        rows.push(
            (
                &entries[i].account,
                (
                    &activity.top_read_epochs,
                    &activity.top_write_epochs,
                    activity.read_count,
                    activity.write_count,
                ),
            ),
        );
        proof {
            let row = rows_of(entries@)[i as int];
            assert(written_rows(rows@) =~= written_rows(before).push(row));
            assert(rows_of(entries@.take(i + 1)) =~= rows_of(entries@.take(i as int)).push(row));
        }
        i += 1;
    }
    assert(entries@.take(i as int) =~= entries@);
    serialize_rows(&rows)
}

/// Reads the entries back from the contents of a file, if it holds entries.
pub fn read_entries(bytes: &[u8]) -> (entries: Option<Vec<AccountActivityEntry>>)
    ensures
        match entries {
            Some(entries) => read_form(bytes@) == Some(rows_of(entries@)),
            None => read_form(bytes@) is None,
        },
{
    let rows: Vec<ReadRow> = match deserialize_rows(bytes) {
        Ok(rows) => rows,
        Err(_) => return None,
    };
    let mut entries: Vec<AccountActivityEntry> = Vec::new();
    let mut i: usize = 0;
    while i < rows.len()
        invariant
            i <= rows@.len(),
            rows_of(entries@) == read_rows(rows@.take(i as int)),
        decreases rows@.len() - i,
    {
        let (account, (top_read_epochs, top_write_epochs, read_count, write_count)) = &rows[i];
        let ghost before = entries@;
        entries.push(
            AccountActivityEntry {
                account: *account,
                activity: AccountActivity {
                    top_read_epochs: top_read_epochs.clone(),
                    top_write_epochs: top_write_epochs.clone(),
                    read_count: *read_count,
                    write_count: *write_count,
                },
            },
        );
        proof {
            let row = read_rows(rows@)[i as int];
            assert(rows_of(entries@) =~= rows_of(before).push(row));
            assert(read_rows(rows@.take(i + 1)) =~= read_rows(rows@.take(i as int)).push(row));
        }
        i += 1;
    }
    assert(rows@.take(i as int) =~= rows@);
    Some(entries)
}

/// Entries make as many rows as they are, in order, and each row has the
/// account, all the epochs and the whole counts of its entry.
pub proof fn lemma_rows_hold_entries(entries: Seq<AccountActivityEntry>)
    ensures
        rows_of(entries).len() == entries.len(),
        forall|i: int|
            0 <= i < entries.len() ==> ({
                let (account, activity) = #[trigger] rows_of(entries)[i];
                &&& account == entries[i].account@
                &&& activity.top_read_epochs == entries[i].activity.top_read_epochs@
                &&& activity.top_write_epochs == entries[i].activity.top_write_epochs@
                &&& activity.read_count == entries[i].activity.read_count
                &&& activity.write_count == entries[i].activity.write_count
            }),
{
}

/// Rows are written, and read, in order, each with its account, all its epochs
/// and its whole counts.
pub proof fn lemma_rows_hold_all(written: Seq<WrittenRow>, read: Seq<ReadRow>)
    ensures
        written_rows(written).len() == written.len(),
        read_rows(read).len() == read.len(),
        forall|i: int|
            0 <= i < written.len() ==> ({
                let (account, activity) = #[trigger] written_rows(written)[i];
                &&& account == written[i].0@
                &&& activity.top_read_epochs == (written[i].1).0@
                &&& activity.top_write_epochs == (written[i].1).1@
                &&& activity.read_count == (written[i].1).2
                &&& activity.write_count == (written[i].1).3
            }),
        forall|i: int|
            0 <= i < read.len() ==> ({
                let (account, activity) = #[trigger] read_rows(read)[i];
                &&& account == read[i].0@
                &&& activity.top_read_epochs == (read[i].1).0@
                &&& activity.top_write_epochs == (read[i].1).1@
                &&& activity.read_count == (read[i].1).2
                &&& activity.write_count == (read[i].1).3
            }),
{
}

/// `rows` has one row for each account of `table`, with its activity, and no
/// other row.
pub open spec fn are_rows_of(
    rows: Seq<(Seq<u8>, ActivityView)>,
    table: Map<Seq<u8>, ActivityView>,
) -> bool {
    &&& forall|i: int|
        0 <= i < rows.len() ==> table.contains_key((#[trigger] rows[i]).0) && table[rows[i].0]
            == rows[i].1
    &&& forall|i: int, j: int|
        0 <= i < j < rows.len() ==> (#[trigger] rows[i]).0 != (#[trigger] rows[j]).0
    &&& forall|account: Seq<u8>| #[trigger]
        table.contains_key(account) ==> exists|i: int|
            0 <= i < rows.len() && (#[trigger] rows[i]).0 == account
}

/// What is read back from the stored form of a table's listing has one row for
/// each account of the table, with its activity, and no other row.
pub proof fn lemma_stored_listing_reads_back(
    entries: Seq<AccountActivityEntry>,
    table: Map<Seq<u8>, ActivityView>,
    bytes: Seq<u8>,
)
    requires
        is_listing(entries, table),
        read_form(bytes) == Some(rows_of(entries)),
    ensures
        are_rows_of(read_form(bytes)->0, table),
        (read_form(bytes)->0).len() == table.dom().len(),
        forall|i: int|
            0 <= i < (read_form(bytes)->0).len() ==> ({
                let (account, activity) = #[trigger] (read_form(bytes)->0)[i];
                table.contains_key(account) && table[account] == activity
            }),
        forall|account: Seq<u8>| #[trigger]
            table.contains_key(account) ==> (read_form(bytes)->0).contains(
                (account, table[account]),
            ),
{
    lemma_listing_has_each_account(entries, table);
    let rows = rows_of(entries);
    assert forall|i: int| 0 <= i < rows.len() implies table.contains_key((#[trigger] rows[i]).0)
        && table[rows[i].0] == rows[i].1 by {
        assert(table.contains_key(entries[i].account@));
    }
    assert forall|i: int, j: int| 0 <= i < j < rows.len() implies (#[trigger] rows[i]).0 != (
    #[trigger] rows[j]).0 by {
        assert(entries[i].account@ != entries[j].account@);
    }
    assert forall|account: Seq<u8>| #[trigger] table.contains_key(account) implies exists|i: int|
        0 <= i < rows.len() && (#[trigger] rows[i]).0 == account by {
        let i = choose|i: int| 0 <= i < entries.len() && entries[i].account@ == account;
        assert(rows[i].0 == account);
    }
    assert forall|account: Seq<u8>| #[trigger] table.contains_key(account) implies rows.contains(
        (account, table[account]),
    ) by {
        let i = choose|i: int| 0 <= i < rows.len() && (#[trigger] rows[i]).0 == account;
        assert(rows[i] == (account, table[account]));
    }
}

/// The same bytes are not read back as the rows of two different tables.
pub proof fn lemma_stored_table_is_unique(
    bytes: Seq<u8>,
    first: Map<Seq<u8>, ActivityView>,
    second: Map<Seq<u8>, ActivityView>,
)
    requires
        read_form(bytes) matches Some(rows) && are_rows_of(rows, first) && are_rows_of(
            rows,
            second,
        ),
    ensures
        first == second,
{
    let rows = read_form(bytes)->0;
    assert forall|account: Seq<u8>| first.contains_key(account) == second.contains_key(
        account,
    ) by {
        if first.contains_key(account) {
            let i = choose|i: int| 0 <= i < rows.len() && rows[i].0 == account;
            assert(second.contains_key(rows[i].0));
        }
        if second.contains_key(account) {
            let i = choose|i: int| 0 <= i < rows.len() && rows[i].0 == account;
            assert(first.contains_key(rows[i].0));
        }
    }
    assert forall|account: Seq<u8>| first.contains_key(account) implies #[trigger] first[account]
        == second[account] by {
        let i = choose|i: int| 0 <= i < rows.len() && rows[i].0 == account;
        assert(first[rows[i].0] == rows[i].1);
    }
    assert(first =~= second);
}

} // verus!

//! The concurrent map that holds the activity of every account.
use crate::activity::known;
use crate::activity::Access;
use crate::activity::AccountActivity;
use crate::activity::ActivityView;
use crate::message::Pubkey;
use dashmap::DashMap;
use vstd::prelude::*;

verus! {

/// `dashmap::DashMap`, a map from keys to values that may be shared between
/// threads. Nothing is known of its inside.
#[verifier::external_type_specification]
#[verifier::external_body]
#[verifier::reject_recursive_types(K)]
#[verifier::reject_recursive_types(V)]
#[verifier::reject_recursive_types(S)]
pub struct ExDashMap<K, V, S>(DashMap<K, V, S>);

/// An account and its activity.
#[derive(Debug)]
pub struct AccountActivityEntry {
    pub account: Pubkey,
    pub activity: AccountActivity,
}

impl Clone for AccountActivityEntry {
    fn clone(&self) -> (copy: Self)
        ensures
            copy.account == self.account,
            copy.activity@ == self.activity@,
            copy.activity.top_read_epochs@ == self.activity.top_read_epochs@,
            copy.activity.top_write_epochs@ == self.activity.top_write_epochs@,
            copy.activity.read_count == self.activity.read_count,
            copy.activity.write_count == self.activity.write_count,
    {
        AccountActivityEntry { account: self.account, activity: self.activity.clone() }
    }
}

/// What the map holds: for each account that has an entry, its activity.
pub uninterp spec fn activity_contents(map: DashMap<Pubkey, AccountActivity>) -> Map<
    Seq<u8>,
    ActivityView,
>;

/// `entries` lists each account of `table` once, with its activity, and no
/// other account.
pub open spec fn is_listing(
    entries: Seq<AccountActivityEntry>,
    table: Map<Seq<u8>, ActivityView>,
) -> bool {
    &&& forall|i: int|
        0 <= i < entries.len() ==> table.contains_key((#[trigger] entries[i]).account@)
            && table[entries[i].account@] == entries[i].activity@
    &&& forall|i: int, j: int|
        0 <= i < j < entries.len() ==> (#[trigger] entries[i]).account@ != (
        #[trigger] entries[j]).account@
    &&& forall|account: Seq<u8>| #[trigger]
        table.contains_key(account) ==> exists|i: int|
            0 <= i < entries.len() && (#[trigger] entries[i]).account@ == account
}

/// A listing has as many entries as the table has accounts. Each account of the
/// table has an entry with its counts and its epochs, and each entry is of an
/// account of the table.
pub proof fn lemma_listing_has_each_account(
    entries: Seq<AccountActivityEntry>,
    table: Map<Seq<u8>, ActivityView>,
)
    requires
        is_listing(entries, table),
    ensures
        table.dom().finite(),
        entries.len() == table.dom().len(),
        forall|i: int|
            0 <= i < entries.len() ==> ({
                let entry = #[trigger] entries[i];
                let activity = table[entry.account@];
                &&& table.contains_key(entry.account@)
                &&& entry.activity.top_read_epochs@ == activity.top_read_epochs
                &&& entry.activity.top_write_epochs@ == activity.top_write_epochs
                &&& entry.activity.read_count == activity.read_count
                &&& entry.activity.write_count == activity.write_count
            }),
        forall|account: Seq<u8>| #[trigger]
            table.contains_key(account) ==> exists|i: int|
                0 <= i < entries.len() && (#[trigger] entries[i]).account@ == account,
{
    let accounts = entries.map_values(|entry: AccountActivityEntry| entry.account@);
    assert(accounts.no_duplicates()) by {
        assert forall|i: int, j: int|
            0 <= i < accounts.len() && 0 <= j < accounts.len() && i != j implies accounts[i]
            != accounts[j] by {
            if i < j {
                assert(entries[i].account@ != entries[j].account@);
            } else {
                assert(entries[j].account@ != entries[i].account@);
            }
        }
    }
    assert forall|account: Seq<u8>| accounts.to_set().contains(account) <==> table.dom().contains(
        account,
    ) by {
        if accounts.to_set().contains(account) {
            let i = choose|i: int| 0 <= i < accounts.len() && accounts[i] == account;
            assert(table.contains_key(entries[i].account@));
        }
        if table.contains_key(account) {
            let i = choose|i: int|
                0 <= i < entries.len() && (#[trigger] entries[i]).account@ == account;
            assert(accounts[i] == account);
        }
    }
    assert(accounts.to_set() =~= table.dom());
    accounts.unique_seq_to_set();
    assert forall|i: int| 0 <= i < entries.len() implies ({
        let entry = #[trigger] entries[i];
        let activity = table[entry.account@];
        &&& table.contains_key(entry.account@)
        &&& entry.activity.top_read_epochs@ == activity.top_read_epochs
        &&& entry.activity.top_write_epochs@ == activity.top_write_epochs
        &&& entry.activity.read_count == activity.read_count
        &&& entry.activity.write_count == activity.write_count
    }) by {
        assert(table[entries[i].account@] == entries[i].activity@);
    }
}

/// Calls `DashMap::new`, which makes a map without entries.
#[verifier::external_body]
pub(crate) fn new_activity_map() -> (map: DashMap<Pubkey, AccountActivity>)
    ensures
        activity_contents(map) == (Map::<Seq<u8>, ActivityView>::empty()),
{
    DashMap::new()
}

/// Calls `DashMap::entry` with `Entry::and_modify` and
/// `Entry::or_insert_with`: the value under `account` is modified in place if
/// there is one, else a new value is put there; no other entry changes. The
/// two closures do nothing but call [`AccountActivity::record`] and
/// [`AccountActivity::first_access`], whose contracts say what the value is.
#[verifier::external_body]
pub(crate) fn record_in_map(
    map: &mut DashMap<Pubkey, AccountActivity>,
    account: Pubkey,
    access: Access,
    epoch: u16,
)
    requires
        known(activity_contents(*old(map)), account@).count(access) < u32::MAX,
    ensures
        activity_contents(*final(map)) == activity_contents(*old(map)).insert(
            account@,
            known(activity_contents(*old(map)), account@).with_access(access, epoch),
        ),
{
    map.entry(account)
        .and_modify(|activity| activity.record(access, epoch))
        .or_insert_with(|| AccountActivity::first_access(access, epoch));
}

/// Calls `DashMap::get` and hands out the read count and the write count of
/// the value under `account`, if there is one.
#[verifier::external_body]
pub(crate) fn counts_in_map(map: &DashMap<Pubkey, AccountActivity>, account: &Pubkey) -> (counts:
    Option<(u32, u32)>)
    ensures
        match counts {
            Some((reads, writes)) => {
                &&& activity_contents(*map).contains_key(account@)
                &&& reads == activity_contents(*map)[account@].read_count
                &&& writes == activity_contents(*map)[account@].write_count
            },
            None => !activity_contents(*map).contains_key(account@),
        },
{
    map.get(account).map(|activity| (activity.read_count, activity.write_count))
}

/// Calls `DashMap::iter`, which visits each entry once, in no particular
/// order, and copies each key with a clone of its value, of which the contract
/// of [`AccountActivity::clone`] says that it is the same.
#[verifier::external_body]
pub(crate) fn entries_of_map(map: &DashMap<Pubkey, AccountActivity>) -> (entries: Vec<
    AccountActivityEntry,
>)
    ensures
        is_listing(entries@, activity_contents(*map)),
{
    map.iter()
        .map(|entry| AccountActivityEntry {
            account: *entry.key(),
            activity: entry.value().clone(),
        })
        .collect()
}

} // verus!

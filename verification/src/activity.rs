//! What is known of one account: the highest epochs in which it was read and
//! written, and how often.
use crate::top_epochs::after_history;
use crate::top_epochs::holds;
use crate::top_epochs::is_top;
use crate::top_epochs::is_top_list;
use crate::top_epochs::lemma_history_top;
use crate::top_epochs::lemma_history_keeps_ten_highest;
use crate::top_epochs::lemma_with_epoch_at;
use crate::top_epochs::lemma_with_epoch_keeps_highest;
use crate::top_epochs::lemma_with_epoch_keeps_list;
use crate::top_epochs::sort_descending;
use crate::top_epochs::with_epoch;
use crate::top_epochs::TOP_EPOCHS;
use vstd::prelude::*;

verus! {

/// How a transaction uses an account.
#[derive(Clone, Copy, Debug, PartialEq, Eq, Structural)]
pub enum Access {
    Read,
    Write,
}

/// Tracks the top 10 epochs for reads and writes, plus total counts.
#[derive(Debug)]
pub struct AccountActivity {
    /// Top 10 highest epochs where this account was read from (sorted descending).
    pub top_read_epochs: Vec<u16>,
    /// Top 10 highest epochs where this account was written to (sorted descending).
    pub top_write_epochs: Vec<u16>,
    /// Total number of read operations.
    pub read_count: u32,
    /// Total number of write operations.
    pub write_count: u32,
}

/// The mathematical model of an [`AccountActivity`].
#[verifier::ext_equal]
pub struct ActivityView {
    pub top_read_epochs: Seq<u16>,
    pub top_write_epochs: Seq<u16>,
    pub read_count: nat,
    pub write_count: nat,
}

impl ActivityView {
    /// An account that was never accessed.
    pub open spec fn empty() -> Self {
        ActivityView {
            top_read_epochs: Seq::empty(),
            top_write_epochs: Seq::empty(),
            read_count: 0,
            write_count: 0,
        }
    }

    /// The epochs kept for one kind of access.
    pub open spec fn top(self, access: Access) -> Seq<u16> {
        match access {
            Access::Read => self.top_read_epochs,
            Access::Write => self.top_write_epochs,
        }
    }

    /// The number of accesses of one kind.
    pub open spec fn count(self, access: Access) -> nat {
        match access {
            Access::Read => self.read_count,
            Access::Write => self.write_count,
        }
    }

    /// The account after one more access in `epoch`: the count of that kind
    /// goes up by one, the epoch is noted in the list of that kind, and the
    /// other kind is as it was.
    pub open spec fn with_access(self, access: Access, epoch: u16) -> Self {
        match access {
            Access::Read => ActivityView {
                top_read_epochs: with_epoch(self.top_read_epochs, epoch),
                read_count: self.read_count + 1,
                ..self
            },
            Access::Write => ActivityView {
                top_write_epochs: with_epoch(self.top_write_epochs, epoch),
                write_count: self.write_count + 1,
                ..self
            },
        }
    }
}

impl View for AccountActivity {
    type V = ActivityView;

    open spec fn view(&self) -> ActivityView {
        ActivityView {
            top_read_epochs: self.top_read_epochs@,
            top_write_epochs: self.top_write_epochs@,
            read_count: self.read_count as nat,
            write_count: self.write_count as nat,
        }
    }
}

impl Clone for AccountActivity {
    fn clone(&self) -> (copy: Self)
        ensures
            copy@ == self@,
            copy.top_read_epochs@ == self.top_read_epochs@,
            copy.top_write_epochs@ == self.top_write_epochs@,
            copy.read_count == self.read_count,
            copy.write_count == self.write_count,
    {
        let copy = AccountActivity {
            top_read_epochs: self.top_read_epochs.clone(),
            top_write_epochs: self.top_write_epochs.clone(),
            read_count: self.read_count,
            write_count: self.write_count,
        };
        assert(copy@ =~= self@);
        copy
    }
}

impl Default for AccountActivity {
    fn default() -> (activity: Self)
        ensures
            activity@ == ActivityView::empty(),
            activity.top_read_epochs@.len() == 0,
            activity.top_write_epochs@.len() == 0,
            activity.read_count == 0,
            activity.write_count == 0,
    {
        AccountActivity {
            top_read_epochs: Vec::new(),
            top_write_epochs: Vec::new(),
            read_count: 0,
            write_count: 0,
        }
    }
}

impl AccountActivity {
    /// Add a read epoch, maintaining top 10 sorted list.
    pub fn add_read_epoch(&mut self, epoch: u16)
        requires
            old(self).read_count < u32::MAX,
        ensures
            final(self)@ == old(self)@.with_access(Access::Read, epoch),
            final(self).read_count == old(self).read_count + 1,
            final(self).top_read_epochs@ == with_epoch(old(self).top_read_epochs@, epoch),
            final(self).write_count == old(self).write_count,
            final(self).top_write_epochs@ == old(self).top_write_epochs@,
    {
        self.read_count += 1;
        Self::add_epoch_to_list(&mut self.top_read_epochs, epoch);
    }

    /// Add a write epoch, maintaining top 10 sorted list.
    pub fn add_write_epoch(&mut self, epoch: u16)
        requires
            old(self).write_count < u32::MAX,
        ensures
            final(self)@ == old(self)@.with_access(Access::Write, epoch),
            final(self).write_count == old(self).write_count + 1,
            final(self).top_write_epochs@ == with_epoch(old(self).top_write_epochs@, epoch),
            final(self).read_count == old(self).read_count,
            final(self).top_read_epochs@ == old(self).top_read_epochs@,
    {
        self.write_count += 1;
        Self::add_epoch_to_list(&mut self.top_write_epochs, epoch);
    }

    /// Helper to maintain a sorted top-10 list of epochs.
    pub fn add_epoch_to_list(list: &mut Vec<u16>, epoch: u16)
        ensures
            final(list)@ == with_epoch(old(list)@, epoch),
            is_top_list(old(list)@) ==> is_top_list(final(list)@),
            old(list)@.contains(epoch) ==> final(list)@ == old(list)@,
            !old(list)@.contains(epoch) ==> {
                &&& final(list)@.len() == if old(list)@.len() < 10 {
                    old(list)@.len() + 1
                } else {
                    10
                }
                &&& forall|i: int, j: int|
                    0 <= i < j < final(list)@.len() ==> #[trigger] final(list)@[i]
                        >= #[trigger] final(list)@[j]
            },
    {
        proof {
            let dropped = lemma_with_epoch_keeps_highest(list@, epoch);
            if is_top_list(list@) {
                lemma_with_epoch_keeps_list(list@, epoch);
            }
        }
        // If epoch already exists, don't add duplicate
        if holds(list, epoch) {
            return;
        }
        // Add epoch and keep sorted (descending)
        list.push(epoch);
        sort_descending(list);

        // Keep only top 10
        if list.len() > TOP_EPOCHS {
            list.truncate(TOP_EPOCHS);
        }
    }

    /// Adds an epoch for one kind of access.
    pub fn record(&mut self, access: Access, epoch: u16)
        requires
            old(self)@.count(access) < u32::MAX,
        ensures
            final(self)@ == old(self)@.with_access(access, epoch),
            final(self).read_count == old(self).read_count + if access == Access::Read {
                1int
            } else {
                0
            },
            final(self).write_count == old(self).write_count + if access == Access::Write {
                1int
            } else {
                0
            },
    {
        match access {
            Access::Read => self.add_read_epoch(epoch),
            Access::Write => self.add_write_epoch(epoch),
        }
    }

    /// The activity of an account whose only access is this one.
    pub fn first_access(access: Access, epoch: u16) -> (activity: AccountActivity)
        ensures
            activity@ == ActivityView::empty().with_access(access, epoch),
            access == Access::Read ==> {
                &&& activity.top_read_epochs@ == seq![epoch]
                &&& activity.top_write_epochs@ == Seq::<u16>::empty()
                &&& activity.read_count == 1
                &&& activity.write_count == 0
            },
            access == Access::Write ==> {
                &&& activity.top_write_epochs@ == seq![epoch]
                &&& activity.top_read_epochs@ == Seq::<u16>::empty()
                &&& activity.write_count == 1
                &&& activity.read_count == 0
            },
    {
        let mut activity = AccountActivity::default();
        activity.record(access, epoch);
        proof {
            let none = Seq::<u16>::empty();
            lemma_with_epoch_at(none, epoch, 0);
            assert(none.insert(0, epoch) =~= seq![epoch]);
            assert(activity.top_read_epochs@ == activity@.top_read_epochs);
            assert(activity.top_write_epochs@ == activity@.top_write_epochs);
        }
        activity
    }
}

/// One use of an account by a transaction.
pub struct AccessEvent {
    pub account: Seq<u8>,
    pub access: Access,
    pub epoch: u16,
}

/// What a table knows of an account: an account that is not in it was never
/// accessed.
pub open spec fn known(table: Map<Seq<u8>, ActivityView>, account: Seq<u8>) -> ActivityView {
    if table.contains_key(account) {
        table[account]
    } else {
        ActivityView::empty()
    }
}

/// The table after one more event.
pub open spec fn noted(table: Map<Seq<u8>, ActivityView>, event: AccessEvent) -> Map<
    Seq<u8>,
    ActivityView,
> {
    table.insert(event.account, known(table, event.account).with_access(event.access, event.epoch))
}

/// The table after `events`, one after the other.
pub open spec fn replay(table: Map<Seq<u8>, ActivityView>, events: Seq<AccessEvent>) -> Map<
    Seq<u8>,
    ActivityView,
>
    decreases events.len(),
{
    if events.len() == 0 {
        table
    } else {
        noted(replay(table, events.drop_last()), events.last())
    }
}

/// The epochs of the accesses of one kind to one account, in order.
pub open spec fn epochs_of(events: Seq<AccessEvent>, account: Seq<u8>, access: Access) -> Seq<u16>
    decreases events.len(),
{
    if events.len() == 0 {
        Seq::empty()
    } else {
        let before = epochs_of(events.drop_last(), account, access);
        let event = events.last();
        if event.account == account && event.access == access {
            before.push(event.epoch)
        } else {
            before
        }
    }
}

/// No count that `events` add to goes past what a counter can hold.
pub open spec fn has_room_for(table: Map<Seq<u8>, ActivityView>, events: Seq<AccessEvent>) -> bool {
    forall|account: Seq<u8>, access: Access|
        (#[trigger] epochs_of(events, account, access)).len() > 0 ==> known(table, account).count(
            access,
        ) + epochs_of(events, account, access).len() <= u32::MAX
}

/// One access adds one to the count of its kind and nothing to the other, and
/// leaves the epochs of the other kind as they are.
pub proof fn lemma_access_counts_once(activity: ActivityView, epoch: u16)
    ensures
        ({
            let read = activity.with_access(Access::Read, epoch);
            &&& read.read_count == activity.read_count + 1
            &&& read.write_count == activity.write_count
            &&& read.top_read_epochs == with_epoch(activity.top_read_epochs, epoch)
            &&& read.top_write_epochs == activity.top_write_epochs
        }),
        ({
            let written = activity.with_access(Access::Write, epoch);
            &&& written.write_count == activity.write_count + 1
            &&& written.read_count == activity.read_count
            &&& written.top_write_epochs == with_epoch(activity.top_write_epochs, epoch)
            &&& written.top_read_epochs == activity.top_read_epochs
        }),
        activity.count(Access::Read) == activity.read_count,
        activity.count(Access::Write) == activity.write_count,
        activity.top(Access::Read) == activity.top_read_epochs,
        activity.top(Access::Write) == activity.top_write_epochs,
{
}

/// What a table knows of an account is its entry; without an entry it knows of
/// no read and of no write.
pub proof fn lemma_known_is_entry(table: Map<Seq<u8>, ActivityView>, account: Seq<u8>)
    ensures
        table.contains_key(account) ==> known(table, account) == table[account],
        !table.contains_key(account) ==> {
            &&& known(table, account).read_count == 0
            &&& known(table, account).write_count == 0
            &&& known(table, account).top_read_epochs.len() == 0
            &&& known(table, account).top_write_epochs.len() == 0
        },
{
}

/// Events leave a mark on the table one by one: without events it is as it was,
/// and the last event changes the entry of its account alone, which it makes if
/// there was none.
pub proof fn lemma_replay_one_by_one(
    table: Map<Seq<u8>, ActivityView>,
    events: Seq<AccessEvent>,
    event: AccessEvent,
)
    ensures
        replay(table, Seq::empty()) == table,
        ({
            let before = replay(table, events);
            let after = replay(table, events.push(event));
            &&& after.dom() == before.dom().insert(event.account)
            &&& forall|account: Seq<u8>| #[trigger]
                before.contains_key(account) && account != event.account ==> after[account]
                    == before[account]
            &&& after[event.account] == known(before, event.account).with_access(
                event.access,
                event.epoch,
            )
        }),
{
    assert(events.push(event).drop_last() =~= events);
}

/// The epochs of the accesses of one kind to one account are those of the
/// events of that account and that kind, in order.
pub proof fn lemma_epochs_of_matching(events: Seq<AccessEvent>, account: Seq<u8>, access: Access)
    ensures
        epochs_of(events, account, access) == events.filter(
            |event: AccessEvent| event.account == account && event.access == access,
        ).map_values(|event: AccessEvent| event.epoch),
    decreases events.len(),
{
    let matches = |event: AccessEvent| event.account == account && event.access == access;
    let epoch = |event: AccessEvent| event.epoch;
    reveal(Seq::filter);
    if events.len() == 0 {
        assert(events.filter(matches).map_values(epoch) =~= Seq::empty());
    } else {
        lemma_epochs_of_matching(events.drop_last(), account, access);
        assert(epochs_of(events, account, access) =~= events.filter(matches).map_values(epoch));
    }
}

/// Where there is room for events, no counter goes past what 32 bits can hold by
/// the events that concern it.
pub proof fn lemma_room_means_counters_fit(
    table: Map<Seq<u8>, ActivityView>,
    events: Seq<AccessEvent>,
    account: Seq<u8>,
    access: Access,
)
    requires
        has_room_for(table, events),
    ensures
        ({
            let more = events.filter(
                |event: AccessEvent| event.account == account && event.access == access,
            ).len();
            let count = if !table.contains_key(account) {
                0
            } else if access == Access::Read {
                table[account].read_count
            } else {
                table[account].write_count
            };
            more > 0 ==> count + more <= 0xffff_ffff
        }),
{
    lemma_epochs_of_matching(events, account, access);
}

/// There is room for events unless some counter would go past what 32 bits can
/// hold by the events that concern it.
pub proof fn lemma_no_room_for_some_counter(
    table: Map<Seq<u8>, ActivityView>,
    events: Seq<AccessEvent>,
) -> (full: (Seq<u8>, Access))
    requires
        !has_room_for(table, events),
    ensures
        ({
            let (account, access) = full;
            let more = events.filter(
                |event: AccessEvent| event.account == account && event.access == access,
            ).len();
            let count = if !table.contains_key(account) {
                0
            } else if access == Access::Read {
                table[account].read_count
            } else {
                table[account].write_count
            };
            more > 0 && count + more > 0xffff_ffff
        }),
{
    let (account, access) = choose|account: Seq<u8>, access: Access|
        !((#[trigger] epochs_of(events, account, access)).len() > 0 ==> known(
            table,
            account,
        ).count(access) + epochs_of(events, account, access).len() <= u32::MAX);
    lemma_epochs_of_matching(events, account, access);
    (account, access)
}

/// Every access is counted once, and for its account and kind alone.
pub proof fn lemma_replay_counts(
    table: Map<Seq<u8>, ActivityView>,
    events: Seq<AccessEvent>,
    account: Seq<u8>,
    access: Access,
)
    ensures
        known(replay(table, events), account).count(access) == known(table, account).count(access)
            + epochs_of(events, account, access).len(),
    decreases events.len(),
{
    if events.len() > 0 {
        lemma_replay_counts(table, events.drop_last(), account, access);
    }
}

/// An account that no event accesses stays as it is, known or unknown.
pub proof fn lemma_replay_leaves_others(
    table: Map<Seq<u8>, ActivityView>,
    events: Seq<AccessEvent>,
    account: Seq<u8>,
)
    requires
        forall|i: int| 0 <= i < events.len() ==> (#[trigger] events[i]).account != account,
    ensures
        replay(table, events).contains_key(account) == table.contains_key(account),
        known(replay(table, events), account) == known(table, account),
    decreases events.len(),
{
    if events.len() > 0 {
        let rest = events.drop_last();
        assert forall|i: int| 0 <= i < rest.len() implies (#[trigger] rest[i]).account != account by {
            assert(rest[i] == events[i]);
        }
        assert(events[events.len() - 1].account != account);
        lemma_replay_leaves_others(table, rest, account);
    }
}

/// Events added in two batches are events added at once.
pub proof fn lemma_replay_append(
    table: Map<Seq<u8>, ActivityView>,
    first: Seq<AccessEvent>,
    second: Seq<AccessEvent>,
)
    ensures
        replay(replay(table, first), second) == replay(table, first + second),
    decreases second.len(),
{
    let all = first + second;
    if second.len() == 0 {
        assert(all =~= first);
    } else {
        lemma_replay_append(table, first, second.drop_last());
        assert(all.drop_last() =~= first + second.drop_last());
        assert(all.last() == second.last());
    }
}

/// The epochs of two batches are those of the first, then those of the second.
pub proof fn lemma_epochs_append(
    first: Seq<AccessEvent>,
    second: Seq<AccessEvent>,
    account: Seq<u8>,
    access: Access,
)
    ensures
        epochs_of(first + second, account, access) == epochs_of(first, account, access)
            + epochs_of(second, account, access),
    decreases second.len(),
{
    let all = first + second;
    let left = epochs_of(first, account, access);
    if second.len() == 0 {
        assert(all =~= first);
        assert(left + epochs_of(second, account, access) =~= left);
    } else {
        lemma_epochs_append(first, second.drop_last(), account, access);
        assert(all.drop_last() =~= first + second.drop_last());
        assert(all.last() == second.last());
        assert(epochs_of(all, account, access) =~= left + epochs_of(second, account, access));
    }
}

/// A table that grew from nothing knows an account exactly if some event
/// accessed it; its counts are the numbers of reads and of writes, and its
/// lists hold the highest epochs of those reads and writes, in descending order.
pub proof fn lemma_replay_from_empty(events: Seq<AccessEvent>, account: Seq<u8>, access: Access)
    ensures
        replay(Map::empty(), events).contains_key(account) <==> exists|i: int|
            0 <= i < events.len() && (#[trigger] events[i]).account == account,
        known(replay(Map::empty(), events), account).count(access) == epochs_of(
            events,
            account,
            access,
        ).len(),
        known(replay(Map::empty(), events), account).top(access) == after_history(
            epochs_of(events, account, access),
        ),
        is_top(
            known(replay(Map::empty(), events), account).top(access),
            epochs_of(events, account, access).to_set(),
        ),
    decreases events.len(),
{
    lemma_history_top(epochs_of(events, account, access));
    if events.len() > 0 {
        let rest = events.drop_last();
        let event = events.last();
        lemma_replay_from_empty(rest, account, access);
        assert(replay(Map::empty(), events).contains_key(account) <==> exists|i: int|
            0 <= i < events.len() && (#[trigger] events[i]).account == account) by {
            if event.account == account {
                assert(events[events.len() - 1].account == account);
            } else if exists|i: int|
                0 <= i < events.len() && (#[trigger] events[i]).account == account {
                let i = choose|i: int|
                    0 <= i < events.len() && (#[trigger] events[i]).account == account;
                assert(rest[i].account == account);
            }
            if exists|i: int| 0 <= i < rest.len() && (#[trigger] rest[i]).account == account {
                let i = choose|i: int|
                    0 <= i < rest.len() && (#[trigger] rest[i]).account == account;
                assert(events[i].account == account);
            }
        }
        if event.account == account && event.access == access {
            let before = epochs_of(rest, account, access);
            assert(before.push(event.epoch).drop_last() =~= before);
        }
    }
}

/// A table that grew from nothing has an entry for exactly the accounts that
/// some event accesses. Its counts are the numbers of the events that read the
/// account and that write it. Of the epochs of these events it keeps the highest,
/// ten at most, each once and in descending order.
pub proof fn lemma_table_sums_up_events(events: Seq<AccessEvent>, account: Seq<u8>)
    ensures
        replay(Map::empty(), events).contains_key(account) <==> exists|i: int|
            0 <= i < events.len() && (#[trigger] events[i]).account == account,
        replay(Map::empty(), events).contains_key(account) ==> ({
            let entry = replay(Map::empty(), events)[account];
            let reads = events.filter(
                |event: AccessEvent| event.account == account && event.access == Access::Read,
            );
            let writes = events.filter(
                |event: AccessEvent| event.account == account && event.access == Access::Write,
            );
            &&& entry.read_count == reads.len()
            &&& entry.write_count == writes.len()
            &&& ten_highest(
                entry.top_read_epochs,
                reads.map_values(|event: AccessEvent| event.epoch),
            )
            &&& ten_highest(
                entry.top_write_epochs,
                writes.map_values(|event: AccessEvent| event.epoch),
            )
        }),
{
    lemma_replay_from_empty(events, account, Access::Read);
    lemma_replay_from_empty(events, account, Access::Write);
    lemma_epochs_of_matching(events, account, Access::Read);
    lemma_epochs_of_matching(events, account, Access::Write);
    lemma_history_keeps_ten_highest(epochs_of(events, account, Access::Read));
    lemma_history_keeps_ten_highest(epochs_of(events, account, Access::Write));
}

/// `list` holds the highest of `epochs`, ten at most, each once and in
/// descending order.
pub open spec fn ten_highest(list: Seq<u16>, epochs: Seq<u16>) -> bool {
    &&& list.len() <= 10
    &&& forall|i: int, j: int| 0 <= i < j < list.len() ==> #[trigger] list[i] > #[trigger] list[j]
    &&& forall|i: int| 0 <= i < list.len() ==> epochs.contains(#[trigger] list[i])
    &&& forall|epoch: u16| #[trigger]
        epochs.contains(epoch) ==> list.contains(epoch) || (list.len() == 10 && forall|i: int|
            0 <= i < list.len() ==> #[trigger] list[i] > epoch)
}

/// The highest of some epochs are what no other epoch among them outdoes: as
/// many of them as there are, but ten at most, and the highest of all first.
pub proof fn lemma_ten_highest_has_the_first(list: Seq<u16>, epochs: Seq<u16>, k: int)
    requires
        ten_highest(list, epochs),
        0 <= k < epochs.len(),
    ensures
        list.len() > 0,
        list[0] >= epochs[k],
        list.len() < 10 ==> list.contains(epochs[k]),
        epochs[k] >= list.last() ==> list.contains(epochs[k]),
{
    assert(epochs.contains(epochs[k]));
    if list.contains(epochs[k]) {
        let i = choose|i: int| 0 <= i < list.len() && list[i] == epochs[k];
        if i > 0 {
            assert(list[0] > list[i]);
        }
    } else {
        assert(list[0] > epochs[k]);
        assert(list[list.len() - 1] > epochs[k]);
    }
}

} // verus!

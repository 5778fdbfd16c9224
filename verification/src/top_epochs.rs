//! Short lists of the highest epochs seen, kept in descending order.
use vstd::prelude::*;
use vstd::relations::sorted_by;
use vstd::relations::total_ordering;
use vstd::seq_lib::lemma_sorted_unique;

verus! {

/// How many epochs a list keeps.
pub const TOP_EPOCHS: usize = 10;

/// The order in which a list is kept: the higher epoch first.
pub open spec fn higher_first() -> spec_fn(u16, u16) -> bool {
    |a: u16, b: u16| a >= b
}

/// `list` without what lies beyond the first [`TOP_EPOCHS`] places.
pub open spec fn top_places(list: Seq<u16>) -> Seq<u16> {
    if list.len() > TOP_EPOCHS {
        list.take(TOP_EPOCHS as int)
    } else {
        list
    }
}

/// `list` once `epoch` has been seen: unchanged if the epoch is in it, else
/// the top places of the list with the epoch added and put in order.
pub open spec fn with_epoch(list: Seq<u16>, epoch: u16) -> Seq<u16> {
    if list.contains(epoch) {
        list
    } else {
        top_places(list.push(epoch).sort_by(higher_first()))
    }
}

/// What a list holds after the epochs of `history`, seen one after the other.
pub open spec fn after_history(history: Seq<u16>) -> Seq<u16>
    decreases history.len(),
{
    if history.len() == 0 {
        Seq::empty()
    } else {
        with_epoch(after_history(history.drop_last()), history.last())
    }
}

/// Each entry is higher than the next, so none occurs twice.
pub open spec fn strictly_descending(list: Seq<u16>) -> bool {
    forall|i: int, j: int| 0 <= i < j < list.len() ==> #[trigger] list[i] > #[trigger] list[j]
}

/// A list as it is kept: in descending order, without repetition, and no longer
/// than it may be.
pub open spec fn is_top_list(list: Seq<u16>) -> bool {
    &&& strictly_descending(list)
    &&& list.len() <= TOP_EPOCHS
}

/// `list` holds the highest epochs of `seen`, highest first: all of them, or
/// [`TOP_EPOCHS`] of them that are higher than every other.
pub open spec fn is_top(list: Seq<u16>, seen: Set<u16>) -> bool {
    &&& strictly_descending(list)
    &&& list.len() <= TOP_EPOCHS
    &&& forall|i: int| 0 <= i < list.len() ==> seen.contains(#[trigger] list[i])
    &&& forall|epoch: u16| #[trigger]
        seen.contains(epoch) ==> list.contains(epoch) || (list.len() == TOP_EPOCHS && forall|i: int|
            0 <= i < list.len() ==> #[trigger] list[i] > epoch)
}

proof fn lemma_higher_first_is_total()
    ensures
        total_ordering(higher_first()),
{
}

/// A list put in order holds what it held, as often as it held it.
proof fn lemma_sorted(list: Seq<u16>)
    ensures
        sorted_by(list.sort_by(higher_first()), higher_first()),
        list.sort_by(higher_first()).to_multiset() == list.to_multiset(),
        list.sort_by(higher_first()).len() == list.len(),
        forall|epoch: u16| #[trigger]
            list.sort_by(higher_first()).contains(epoch) <==> list.contains(epoch),
{
    broadcast use vstd::seq_lib::group_to_multiset_ensures;

    lemma_higher_first_is_total();
    list.lemma_sort_by_ensures(higher_first());
    let sorted = list.sort_by(higher_first());
    assert(sorted.to_multiset().len() == list.to_multiset().len());
    assert forall|epoch: u16| #[trigger] sorted.contains(epoch) implies list.contains(epoch) by {
        assert(sorted.to_multiset().count(epoch) > 0);
    }
    assert forall|epoch: u16| list.contains(epoch) implies #[trigger] sorted.contains(epoch) by {
        assert(list.to_multiset().count(epoch) > 0);
    }
}

/// An entry put in anywhere is one entry more.
proof fn lemma_insert_multiset(list: Seq<u16>, place: int, epoch: u16)
    requires
        0 <= place <= list.len(),
    ensures
        list.insert(place, epoch).to_multiset() == list.to_multiset().insert(epoch),
{
    broadcast use vstd::seq_lib::group_to_multiset_ensures;

    let placed = list.insert(place, epoch);
    assert(placed[place] == epoch);
    assert(placed.remove(place) =~= list);
    assert(placed.to_multiset().remove(epoch) == list.to_multiset());
    assert(placed.contains(placed[place]));
    assert(placed.to_multiset() =~= list.to_multiset().insert(epoch));
}

/// Whatever a list held, an epoch that is in it changes nothing. With an epoch
/// that is not, what it held and the epoch are kept, or dropped if there is no
/// room: ten entries are kept at most, none is dropped that is higher than one
/// that is kept, and those that are kept come in descending order.
pub proof fn lemma_with_epoch_keeps_highest(list: Seq<u16>, epoch: u16) -> (dropped: Seq<u16>)
    ensures
        list.contains(epoch) ==> with_epoch(list, epoch) == list,
        !list.contains(epoch) ==> {
            let kept = with_epoch(list, epoch);
            &&& (kept + dropped).to_multiset() == list.push(epoch).to_multiset()
            &&& kept.len() == if list.len() < 10 {
                list.len() + 1
            } else {
                10
            }
            &&& forall|i: int, j: int|
                0 <= i < j < kept.len() ==> #[trigger] kept[i] >= #[trigger] kept[j]
            &&& forall|i: int, j: int|
                0 <= i < kept.len() && 0 <= j < dropped.len() ==> #[trigger] kept[i]
                    >= #[trigger] dropped[j]
        },
{
    let sorted = list.push(epoch).sort_by(higher_first());
    lemma_sorted(list.push(epoch));
    let kept = top_places(sorted);
    let dropped = sorted.skip(kept.len() as int);
    assert(kept + dropped =~= sorted);
    assert forall|i: int, j: int| 0 <= i < j < sorted.len() implies #[trigger] sorted[i]
        >= #[trigger] sorted[j] by {
        assert(higher_first()(sorted[i], sorted[j]));
    }
    assert forall|i: int, j: int| 0 <= i < j < kept.len() implies #[trigger] kept[i]
        >= #[trigger] kept[j] by {
        assert(sorted[i] >= sorted[j]);
    }
    assert forall|i: int, j: int| 0 <= i < kept.len() && 0 <= j < dropped.len() implies
        #[trigger] kept[i] >= #[trigger] dropped[j] by {
        assert(sorted[i] >= sorted[kept.len() + j]);
    }
    dropped
}

/// In a strictly descending list that lacks the epoch, a new epoch goes
/// between the entries above it and those below it.
pub proof fn lemma_with_epoch_at(list: Seq<u16>, epoch: u16, place: int)
    requires
        strictly_descending(list),
        0 <= place <= list.len(),
        forall|i: int| 0 <= i < place ==> #[trigger] list[i] > epoch,
        forall|i: int| place <= i < list.len() ==> #[trigger] list[i] < epoch,
    ensures
        with_epoch(list, epoch) == top_places(list.insert(place, epoch)),
{
    broadcast use vstd::seq_lib::group_to_multiset_ensures;

    assert(!list.contains(epoch));
    let sorted = list.push(epoch).sort_by(higher_first());
    let placed = list.insert(place, epoch);
    lemma_sorted(list.push(epoch));
    lemma_insert_multiset(list, place, epoch);
    assert forall|i: int, j: int| 0 <= i < j < placed.len() implies #[trigger] higher_first()(
        placed[i],
        placed[j],
    ) by {
        let before = |k: int| if k > place { k - 1 } else { k };
        assert(placed[i] == if i == place { epoch } else { list[before(i)] });
        assert(placed[j] == if j == place { epoch } else { list[before(j)] });
    }
    lemma_higher_first_is_total();
    lemma_sorted_unique(sorted, placed, higher_first());
}

/// Seeing one more epoch keeps a list the highest of what was seen.
pub proof fn lemma_with_epoch_keeps_top(list: Seq<u16>, seen: Set<u16>, epoch: u16)
    requires
        is_top(list, seen),
    ensures
        is_top(with_epoch(list, epoch), seen.insert(epoch)),
{
    if !list.contains(epoch) {
        let place = lemma_place(list, epoch);
        lemma_with_epoch_at(list, epoch, place);
        let placed = list.insert(place, epoch);
        let now = with_epoch(list, epoch);
        assert(placed[place] == epoch);
        assert forall|i: int| 0 <= i < list.len() implies placed.contains(#[trigger] list[i]) by {
            assert(placed[if i < place { i } else { i + 1 }] == list[i]);
        }
        assert(strictly_descending(placed)) by {
            assert forall|i: int, j: int| 0 <= i < j < placed.len() implies #[trigger] placed[i]
                > #[trigger] placed[j] by {
                let before = |k: int| if k > place { k - 1 } else { k };
                assert(placed[i] == if i == place { epoch } else { list[before(i)] });
                assert(placed[j] == if j == place { epoch } else { list[before(j)] });
            }
        }
        assert forall|i: int| 0 <= i < now.len() implies seen.insert(epoch).contains(
            #[trigger] now[i],
        ) by {
            assert(now[i] == placed[i]);
            let before = |k: int| if k > place { k - 1 } else { k };
            assert(placed[i] == if i == place { epoch } else { list[before(i)] });
        }
        assert forall|other: u16| #[trigger] seen.insert(epoch).contains(other) implies now.contains(
            other,
        ) || (now.len() == TOP_EPOCHS && forall|i: int|
            0 <= i < now.len() ==> #[trigger] now[i] > other) by {
            if placed.contains(other) {
                let at = choose|k: int| 0 <= k < placed.len() && placed[k] == other;
                if at < now.len() {
                    assert(now[at] == other);
                } else {
                    assert forall|i: int| 0 <= i < now.len() implies #[trigger] now[i] > other by {
                        assert(now[i] == placed[i]);
                        assert(placed[i] > placed[at]);
                    }
                }
            } else {
                assert(other != epoch);
                assert(seen.contains(other));
                assert(!list.contains(other));
                assert forall|i: int| 0 <= i < now.len() implies #[trigger] now[i] > other by {
                    assert(now[i] == placed[i]);
                    if i < place {
                        assert(list[i] > other);
                    } else if i == place {
                        assert(place < TOP_EPOCHS == list.len());
                        assert(list[place] > other);
                        assert(list[place] < epoch);
                    } else {
                        assert(list[i - 1] > other);
                    }
                }
            }
        }
    }
}

/// The place of a new epoch in a strictly descending list.
proof fn lemma_place(list: Seq<u16>, epoch: u16) -> (place: int)
    requires
        strictly_descending(list),
        !list.contains(epoch),
    ensures
        0 <= place <= list.len(),
        forall|i: int| 0 <= i < place ==> #[trigger] list[i] > epoch,
        forall|i: int| place <= i < list.len() ==> #[trigger] list[i] < epoch,
    decreases list.len(),
{
    if list.len() == 0 {
        0
    } else if list.last() > epoch {
        list.len() as int
    } else {
        assert(list.last() != epoch);
        let rest = list.drop_last();
        assert(!rest.contains(epoch)) by {
            if rest.contains(epoch) {
                let i = choose|i: int| 0 <= i < rest.len() && rest[i] == epoch;
                assert(list[i] == epoch);
            }
        }
        let place = lemma_place(rest, epoch);
        assert forall|i: int| place <= i < list.len() implies #[trigger] list[i] < epoch by {
            if i < rest.len() {
                assert(rest[i] == list[i]);
            }
        }
        assert forall|i: int| 0 <= i < place implies #[trigger] list[i] > epoch by {
            assert(rest[i] == list[i]);
        }
        place
    }
}

/// A list that is kept as it should be stays so when an epoch is seen. It does
/// not get shorter, and nothing but the epoch comes into it.
pub proof fn lemma_with_epoch_keeps_list(list: Seq<u16>, epoch: u16)
    requires
        is_top_list(list),
    ensures
        is_top_list(with_epoch(list, epoch)),
        with_epoch(list, epoch).len() >= list.len(),
        forall|i: int|
            0 <= i < with_epoch(list, epoch).len() ==> (#[trigger] with_epoch(list, epoch)[i])
                == epoch || list.contains(with_epoch(list, epoch)[i]),
{
    lemma_is_top_of_itself(list);
    lemma_with_epoch_keeps_top(list, list.to_set(), epoch);
    let now = with_epoch(list, epoch);
    assert forall|i: int| 0 <= i < now.len() implies (#[trigger] now[i]) == epoch || list.contains(
        now[i],
    ) by {
        assert(list.to_set().insert(epoch).contains(now[i]));
    }
    lemma_sorted(list.push(epoch));
}

/// Whichever of two epochs is seen first, the list is the same in the end: the
/// highest of what it held and of the two.
pub proof fn lemma_with_epoch_commutes(list: Seq<u16>, a: u16, b: u16)
    requires
        is_top_list(list),
    ensures
        with_epoch(with_epoch(list, a), b) == with_epoch(with_epoch(list, b), a),
        is_top(with_epoch(with_epoch(list, a), b), list.to_set().insert(a).insert(b)),
{
    let held = list.to_set();
    lemma_is_top_of_itself(list);
    lemma_with_epoch_keeps_top(list, held, a);
    lemma_with_epoch_keeps_top(with_epoch(list, a), held.insert(a), b);
    lemma_with_epoch_keeps_top(list, held, b);
    lemma_with_epoch_keeps_top(with_epoch(list, b), held.insert(b), a);
    assert(held.insert(a).insert(b) =~= held.insert(b).insert(a));
    lemma_top_unique(
        with_epoch(with_epoch(list, a), b),
        with_epoch(with_epoch(list, b), a),
        held.insert(a).insert(b),
    );
}

/// A list as it is kept holds the highest of what it holds.
proof fn lemma_is_top_of_itself(list: Seq<u16>)
    requires
        is_top_list(list),
    ensures
        is_top(list, list.to_set()),
{
}

/// However many epochs were seen, and in whatever order, the list holds the
/// highest of them in descending order.
pub proof fn lemma_history_top(history: Seq<u16>)
    ensures
        is_top(after_history(history), history.to_set()),
    decreases history.len(),
{
    if history.len() > 0 {
        let rest = history.drop_last();
        lemma_history_top(rest);
        lemma_with_epoch_keeps_top(after_history(rest), rest.to_set(), history.last());
        assert(rest.to_set().insert(history.last()) =~= history.to_set()) by {
            assert forall|epoch: u16| history.to_set().contains(epoch) implies rest.to_set().insert(
                history.last(),
            ).contains(epoch) by {
                let i = choose|i: int| 0 <= i < history.len() && history[i] == epoch;
                if i < rest.len() {
                    assert(rest[i] == epoch);
                }
            }
            assert forall|epoch: u16| #[trigger] rest.to_set().contains(
                epoch,
            ) implies history.to_set().contains(epoch) by {
                let i = choose|i: int| 0 <= i < rest.len() && rest[i] == epoch;
                assert(history[i] == epoch);
            }
            assert(history[history.len() - 1] == history.last());
        }
    }
}

/// After any run of epochs the list has no more than ten entries, each higher
/// than the next. Each of them was seen. Every epoch that was seen is among
/// them, unless there are ten that are all higher.
pub proof fn lemma_history_keeps_ten_highest(history: Seq<u16>)
    ensures
        after_history(history).len() <= 10,
        forall|i: int, j: int|
            0 <= i < j < after_history(history).len() ==> #[trigger] after_history(history)[i]
                > #[trigger] after_history(history)[j],
        forall|i: int|
            0 <= i < after_history(history).len() ==> history.contains(
                #[trigger] after_history(history)[i],
            ),
        forall|epoch: u16| #[trigger]
            history.contains(epoch) ==> after_history(history).contains(epoch) || (after_history(
                history,
            ).len() == 10 && forall|i: int|
                0 <= i < after_history(history).len() ==> #[trigger] after_history(history)[i]
                    > epoch),
{
    lemma_history_top(history);
    let list = after_history(history);
    assert forall|i: int| 0 <= i < list.len() implies history.contains(#[trigger] list[i]) by {
        assert(history.to_set().contains(list[i]));
    }
    assert forall|epoch: u16| #[trigger] history.contains(epoch) implies list.contains(epoch) || (
    list.len() == 10 && forall|i: int| 0 <= i < list.len() ==> #[trigger] list[i] > epoch) by {
        assert(history.to_set().contains(epoch));
    }
}

/// A top list of a set of epochs has no more than ten entries, each higher than
/// the next and each out of the set. It has every epoch of the set, unless it
/// has ten that are all higher.
pub proof fn lemma_top_has_ten_highest(list: Seq<u16>, seen: Set<u16>)
    ensures
        is_top(list, seen) <==> {
            &&& list.len() <= 10
            &&& forall|i: int, j: int|
                0 <= i < j < list.len() ==> #[trigger] list[i] > #[trigger] list[j]
            &&& forall|i: int| 0 <= i < list.len() ==> seen.contains(#[trigger] list[i])
            &&& forall|epoch: u16| #[trigger]
                seen.contains(epoch) ==> list.contains(epoch) || (list.len() == 10 && forall|
                    i: int,
                |
                    0 <= i < list.len() ==> #[trigger] list[i] > epoch)
        },
        is_top_list(list) <==> list.len() <= 10 && forall|i: int, j: int|
            0 <= i < j < list.len() ==> #[trigger] list[i] > #[trigger] list[j],
{
}

/// A set of epochs has one such list only, so the order in which the epochs
/// were seen, and how often, leaves no trace in it.
pub proof fn lemma_top_unique(first: Seq<u16>, second: Seq<u16>, seen: Set<u16>)
    requires
        is_top(first, seen),
        is_top(second, seen),
    ensures
        first == second,
{
    lemma_top_covers(first, second, seen);
    lemma_top_covers(second, first, seen);
    lemma_same_entries(first, second);
}

/// Two top lists of one set have the same entries.
proof fn lemma_top_covers(first: Seq<u16>, second: Seq<u16>, seen: Set<u16>)
    requires
        is_top(first, seen),
        is_top(second, seen),
    ensures
        forall|epoch: u16| #[trigger] first.contains(epoch) ==> second.contains(epoch),
{
    assert forall|epoch: u16| #[trigger] first.contains(epoch) implies second.contains(epoch) by {
        assert(seen.contains(epoch));
        if !second.contains(epoch) {
            assert(second.len() == TOP_EPOCHS);
            assert forall|i: int| 0 <= i < second.len() implies first.contains(
                #[trigger] second[i],
            ) by {
                assert(seen.contains(second[i]));
                if !first.contains(second[i]) {
                    assert(second[i] > epoch);
                    let at = choose|k: int| 0 <= k < first.len() && first[k] == epoch;
                    assert(first[at] > second[i]);
                }
            }
            assert(first.no_duplicates());
            assert(second.no_duplicates());
            first.unique_seq_to_set();
            second.unique_seq_to_set();
            assert(second.to_set().insert(epoch).subset_of(first.to_set()));
            assert(!second.to_set().contains(epoch));
            vstd::set_lib::lemma_len_subset(second.to_set().insert(epoch), first.to_set());
        }
    }
}

/// Strictly descending lists with the same entries are the same list.
proof fn lemma_same_entries(first: Seq<u16>, second: Seq<u16>)
    requires
        strictly_descending(first),
        strictly_descending(second),
        forall|epoch: u16|
            #![trigger first.contains(epoch)]
            #![trigger second.contains(epoch)]
            first.contains(epoch) <==> second.contains(epoch),
    ensures
        first == second,
    decreases first.len(),
{
    if first.len() == 0 {
        if second.len() > 0 {
            assert(second.contains(second[0]));
        }
        assert(first =~= second);
    } else {
        assert(first.contains(first.last()));
        let at = choose|k: int| 0 <= k < second.len() && second[k] == first.last();
        assert(second.contains(second.last()));
        let back = choose|k: int| 0 <= k < first.len() && first[k] == second.last();
        assert(first.last() == second.last()) by {
            if at < second.len() - 1 {
                assert(second[at] > second[second.len() - 1]);
            }
            if back < first.len() - 1 {
                assert(first[back] > first[first.len() - 1]);
            }
        }
        assert forall|epoch: u16|
            #![trigger first.drop_last().contains(epoch)]
            #![trigger second.drop_last().contains(epoch)]
            first.drop_last().contains(epoch) <==> second.drop_last().contains(epoch) by {
            lemma_drop_last_contains(first, epoch);
            lemma_drop_last_contains(second, epoch);
        }
        lemma_same_entries(first.drop_last(), second.drop_last());
        assert(first =~= first.drop_last().push(first.last()));
        assert(second =~= second.drop_last().push(second.last()));
    }
}

proof fn lemma_drop_last_contains(list: Seq<u16>, epoch: u16)
    requires
        strictly_descending(list),
        list.len() > 0,
    ensures
        list.drop_last().contains(epoch) <==> list.contains(epoch) && epoch != list.last(),
{
    if list.drop_last().contains(epoch) {
        let i = choose|i: int| 0 <= i < list.len() - 1 && list.drop_last()[i] == epoch;
        assert(list[i] == epoch);
        assert(list[i] > list[list.len() - 1]);
    }
    if list.contains(epoch) && epoch != list.last() {
        let i = choose|i: int| 0 <= i < list.len() && list[i] == epoch;
        assert(list.drop_last()[i] == epoch);
    }
}

/// Seeing an epoch twice in a row is the same as seeing it once, whatever the
/// list held.
pub proof fn lemma_with_epoch_idempotent(list: Seq<u16>, epoch: u16)
    ensures
        with_epoch(with_epoch(list, epoch), epoch) == with_epoch(list, epoch),
{
    broadcast use vstd::seq_lib::group_to_multiset_ensures;

    let once = with_epoch(list, epoch);
    if !once.contains(epoch) {
        let whole = list.push(epoch).sort_by(higher_first());
        lemma_sorted(list.push(epoch));
        assert(list.push(epoch)[list.len() as int] == epoch);
        assert(whole.contains(epoch));
        let at = choose|k: int| 0 <= k < whole.len() && whole[k] == epoch;
        assert(at >= once.len()) by {
            if at < once.len() {
                assert(once[at] == epoch);
            }
        }
        assert(once.len() == TOP_EPOCHS);
        let again = once.push(epoch);
        assert forall|i: int, j: int| 0 <= i < j < again.len() implies #[trigger] higher_first()(
            again[i],
            again[j],
        ) by {
            assert(again[i] == whole[i]);
            if j < once.len() {
                assert(again[j] == whole[j]);
                assert(higher_first()(whole[i], whole[j]));
            } else {
                assert(higher_first()(whole[i], whole[at]));
            }
        }
        lemma_sorted(again);
        lemma_higher_first_is_total();
        lemma_sorted_unique(again.sort_by(higher_first()), again, higher_first());
        assert(again.take(TOP_EPOCHS as int) =~= once);
    }
}

/// Whether `list` holds `epoch`.
pub(crate) fn holds(list: &Vec<u16>, epoch: u16) -> (found: bool)
    ensures
        found == list@.contains(epoch),
{
    let mut i: usize = 0;
    while i < list.len()
        invariant
            i <= list@.len(),
            forall|k: int| 0 <= k < i ==> list@[k] != epoch,
        decreases list@.len() - i,
    {
        if list[i] == epoch {
            return true;
        }
        i += 1;
    }
    false
}

/// Puts `list` in order, the highest epoch first.
pub(crate) fn sort_descending(list: &mut Vec<u16>)
    ensures
        final(list)@ == old(list)@.sort_by(higher_first()),
{
    broadcast use vstd::seq_lib::group_to_multiset_ensures;

    let mut i: usize = 0;
    while i < list.len()
        invariant
            i <= list@.len(),
            list@.to_multiset() == old(list)@.to_multiset(),
            sorted_by(list@.take(i as int), higher_first()),
        decreases list@.len() - i,
    {
        let epoch: u16 = list[i];
        let mut place: usize = i;
        while place > 0 && list[place - 1] < epoch
            invariant
                place <= i < list@.len(),
                sorted_by(list@.take(i as int), higher_first()),
                forall|k: int| place <= k < i ==> #[trigger] list@[k] < epoch,
            decreases place,
        {
            place -= 1;
        }
        let ghost before = list@;
        if place < i {
            list.remove(i);
            list.insert(place, epoch);
        }
        proof {
            let lifted = before.remove(i as int);
            let placed = lifted.insert(place as int, epoch);
            assert(before =~= before.remove(i as int).insert(i as int, epoch));
            assert(list@ =~= placed);
            lemma_insert_multiset(lifted, i as int, epoch);
            lemma_insert_multiset(lifted, place as int, epoch);
            let head = before.take(i as int);
            assert forall|a: int, b: int| 0 <= a < b < i + 1 implies #[trigger] higher_first()(
                list@.take(i + 1)[a],
                list@.take(i + 1)[b],
            ) by {
                let from = |k: int| if k > place { k - 1 } else { k };
                assert(list@[a] == if a == place { epoch } else { head[from(a)] });
                assert(list@[b] == if b == place { epoch } else { head[from(b)] });
                if a != place && b != place {
                    assert(higher_first()(head[from(a)], head[from(b)]));
                } else if b == place {
                    assert(place > 0);
                    assert(before[place - 1] >= epoch);
                    if a < place - 1 {
                        assert(higher_first()(head[a], head[place - 1]));
                    }
                } else {
                    assert(before[b - 1] < epoch);
                }
            }
        }
        i += 1;
    }
    proof {
        assert(list@.take(i as int) =~= list@);
        lemma_sorted(old(list)@);
        lemma_higher_first_is_total();
        lemma_sorted_unique(list@, old(list)@.sort_by(higher_first()), higher_first());
    }
}

} // verus!

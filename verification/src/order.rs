//! Stable orders: the positions of a list of keys, arranged by key, with ties
//! left in the order in which they stood.
use vstd::prelude::*;
use vstd::set_lib::lemma_int_range;
use vstd::set_lib::lemma_subset_equality;
use vstd::set_lib::set_int_range;

verus! {

/// Which way the keys run.
#[derive(Clone, Copy, Debug, PartialEq, Eq, Structural)]
pub enum Direction {
    /// Smallest key first.
    Ascending,
    /// Largest key first.
    Descending,
}

/// Position `a` belongs before position `b`: its key comes first, or the keys
/// are equal and `a` stands before `b` already.
pub open spec fn comes_before(keys: Seq<u128>, direction: Direction, a: int, b: int) -> bool {
    if keys[a] == keys[b] {
        a < b
    } else {
        match direction {
            Direction::Ascending => keys[a] < keys[b],
            Direction::Descending => keys[a] > keys[b],
        }
    }
}

/// `order` lists as many positions of `keys` as there are, each before the
/// next. No position comes before itself, so none is listed twice.
pub open spec fn is_stable_order(
    keys: Seq<u128>,
    direction: Direction,
    order: Seq<usize>,
) -> bool {
    &&& order.len() == keys.len()
    &&& forall|i: int| 0 <= i < order.len() ==> 0 <= #[trigger] order[i] < keys.len()
    &&& forall|i: int, j: int|
        0 <= i < j < order.len() ==> comes_before(
            keys,
            direction,
            #[trigger] order[i] as int,
            #[trigger] order[j] as int,
        )
}

/// In a stable order the keys only go up, or only go down; where two keys are
/// equal, the earlier position comes first; and no position is listed twice.
pub proof fn lemma_order_sorts(keys: Seq<u128>, direction: Direction, order: Seq<usize>)
    requires
        is_stable_order(keys, direction, order),
    ensures
        order.len() == keys.len(),
        forall|i: int| 0 <= i < order.len() ==> 0 <= #[trigger] order[i] < keys.len(),
        forall|i: int, j: int|
            0 <= i < j < order.len() ==> {
                let (a, b) = (#[trigger] order[i] as int, #[trigger] order[j] as int);
                &&& a != b
                &&& direction == Direction::Ascending ==> keys[a] <= keys[b]
                &&& direction == Direction::Descending ==> keys[a] >= keys[b]
                &&& keys[a] == keys[b] ==> a < b
            },
{
    assert forall|i: int, j: int| 0 <= i < j < order.len() implies {
        let (a, b) = (#[trigger] order[i] as int, #[trigger] order[j] as int);
        &&& a != b
        &&& direction == Direction::Ascending ==> keys[a] <= keys[b]
        &&& direction == Direction::Descending ==> keys[a] >= keys[b]
        &&& keys[a] == keys[b] ==> a < b
    } by {
        assert(comes_before(keys, direction, order[i] as int, order[j] as int));
    }
}

/// Every position occurs in a stable order.
pub proof fn lemma_order_covers(
    keys: Seq<u128>,
    direction: Direction,
    order: Seq<usize>,
    position: int,
)
    requires
        is_stable_order(keys, direction, order),
        0 <= position < keys.len(),
    ensures
        exists|i: int| 0 <= i < order.len() && #[trigger] order[i] == position,
{
    let listed = order.map_values(|i: usize| i as int);
    assert(listed.no_duplicates());
    listed.unique_seq_to_set();
    lemma_int_range(0, keys.len() as int);
    assert(listed.to_set().subset_of(set_int_range(0, keys.len() as int)));
    assert(listed.to_set().finite());
    lemma_subset_equality(listed.to_set(), set_int_range(0, keys.len() as int));
    assert(listed.to_set().contains(position));
    let i = choose|i: int| 0 <= i < listed.len() && listed[i] == position;
    assert(order[i] == position);
}

/// A list of keys has one stable order only.
pub proof fn lemma_order_unique(
    keys: Seq<u128>,
    direction: Direction,
    first: Seq<usize>,
    second: Seq<usize>,
)
    requires
        is_stable_order(keys, direction, first),
        is_stable_order(keys, direction, second),
    ensures
        first == second,
{
    assert forall|p: int| 0 <= p < first.len() implies first[p] == second[p] by {
        lemma_order_agrees(keys, direction, first, second, p);
    }
    assert(first =~= second);
}

proof fn lemma_order_agrees(
    keys: Seq<u128>,
    direction: Direction,
    first: Seq<usize>,
    second: Seq<usize>,
    p: int,
)
    requires
        is_stable_order(keys, direction, first),
        is_stable_order(keys, direction, second),
        0 <= p < first.len(),
    ensures
        first[p] == second[p],
    decreases p,
{
    assert forall|q: int| 0 <= q < p implies first[q] == second[q] by {
        lemma_order_agrees(keys, direction, first, second, q);
    }
    lemma_order_covers(keys, direction, second, first[p] as int);
    lemma_order_covers(keys, direction, first, second[p] as int);
    let q = choose|q: int| 0 <= q < second.len() && second[q] == first[p];
    let r = choose|r: int| 0 <= r < first.len() && first[r] == second[p];
    if q < p {
        assert(first[q] == second[q]);
        assert(comes_before(keys, direction, first[q] as int, first[p] as int));
    }
    if r < p {
        assert(first[r] == second[r]);
        assert(comes_before(keys, direction, second[r] as int, second[p] as int));
    }
    if q > p && r > p {
        assert(comes_before(keys, direction, second[p] as int, second[q] as int));
        assert(comes_before(keys, direction, first[p] as int, first[r] as int));
    }
}

/// The stable order of `keys`.
pub fn stable_order(keys: &Vec<u128>, direction: Direction) -> (order: Vec<usize>)
    ensures
        is_stable_order(keys@, direction, order@),
{
    order_range(keys, direction, 0, keys.len())
}

/// `order` lists `to - from` positions out of `from..to`, each before the next.
spec fn is_range_order(
    keys: Seq<u128>,
    direction: Direction,
    from: int,
    to: int,
    order: Seq<usize>,
) -> bool {
    &&& order.len() == to - from
    &&& forall|i: int| 0 <= i < order.len() ==> from <= #[trigger] order[i] < to
    &&& forall|i: int, j: int|
        0 <= i < j < order.len() ==> comes_before(
            keys,
            direction,
            #[trigger] order[i] as int,
            #[trigger] order[j] as int,
        )
}

fn order_range(keys: &Vec<u128>, direction: Direction, from: usize, to: usize) -> (order: Vec<
    usize,
>)
    requires
        from <= to <= keys@.len(),
    ensures
        is_range_order(keys@, direction, from as int, to as int, order@),
    decreases to - from,
{
    if to - from == 0 {
        return Vec::new();
    }
    if to - from == 1 {
        let mut single: Vec<usize> = Vec::new();
        single.push(from);
        return single;
    }
    let middle: usize = from + (to - from) / 2;
    let left = order_range(keys, direction, from, middle);
    let right = order_range(keys, direction, middle, to);
    merge(keys, direction, from, middle, to, &left, &right)
}

fn merge(
    keys: &Vec<u128>,
    direction: Direction,
    from: usize,
    middle: usize,
    to: usize,
    left: &Vec<usize>,
    right: &Vec<usize>,
) -> (order: Vec<usize>)
    requires
        from <= middle <= to <= keys@.len(),
        is_range_order(keys@, direction, from as int, middle as int, left@),
        is_range_order(keys@, direction, middle as int, to as int, right@),
    ensures
        is_range_order(keys@, direction, from as int, to as int, order@),
{
    let mut order: Vec<usize> = Vec::with_capacity(to - from);
    let mut i: usize = 0;
    let mut j: usize = 0;
    while i < left.len() || j < right.len()
        invariant
            from <= middle <= to <= keys@.len(),
            is_range_order(keys@, direction, from as int, middle as int, left@),
            is_range_order(keys@, direction, middle as int, to as int, right@),
            i <= left@.len(),
            j <= right@.len(),
            order@.len() == i + j,
            forall|p: int| 0 <= p < order@.len() ==> from <= #[trigger] order@[p] < to,
            forall|p: int, q: int|
                0 <= p < q < order@.len() ==> comes_before(
                    keys@,
                    direction,
                    #[trigger] order@[p] as int,
                    #[trigger] order@[q] as int,
                ),
            forall|p: int, q: int|
                0 <= p < order@.len() && i <= q < left@.len() ==> comes_before(
                    keys@,
                    direction,
                    #[trigger] order@[p] as int,
                    #[trigger] left@[q] as int,
                ),
            forall|p: int, q: int|
                0 <= p < order@.len() && j <= q < right@.len() ==> comes_before(
                    keys@,
                    direction,
                    #[trigger] order@[p] as int,
                    #[trigger] right@[q] as int,
                ),
        decreases left@.len() - i + right@.len() - j,
    {
        let take_left: bool = if i == left.len() {
            false
        } else if j == right.len() {
            true
        } else {
            let a: u128 = keys[left[i]];
            let b: u128 = keys[right[j]];
            match direction {
                Direction::Ascending => a <= b,
                Direction::Descending => a >= b,
            }
        };
        if take_left {
            order.push(left[i]);
            i += 1;
        } else {
            order.push(right[j]);
            j += 1;
        }
    }
    order
}

} // verus!

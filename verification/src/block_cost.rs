//! What it costs to read one block.
use vstd::prelude::*;

verus! {

/// The cost of one block: how many transactions were seen and how many the
/// block reports, their bytes on the wire, and the time that it took to
/// deserialize and sanitize them.
#[derive(Clone, Copy, Debug, PartialEq, Eq, Structural)]
pub struct BlockCost {
    pub tx_count: usize,
    pub reported_tx_count: u64,
    pub bytes: usize,
    pub deser_sanitize_nanos: u128,
}

/// The cost of a block of which nothing was seen.
pub open spec fn no_cost() -> BlockCost {
    BlockCost { tx_count: 0, reported_tx_count: 0, bytes: 0, deser_sanitize_nanos: 0 }
}

impl Default for BlockCost {
    fn default() -> (cost: Self)
        ensures
            cost == no_cost(),
            cost.tx_count == 0,
            cost.reported_tx_count == 0,
            cost.bytes == 0,
            cost.deser_sanitize_nanos == 0,
    {
        BlockCost { tx_count: 0, reported_tx_count: 0, bytes: 0, deser_sanitize_nanos: 0 }
    }
}

/// The number of transactions seen differs from the number reported.
pub open spec fn is_mismatch(cost: BlockCost) -> bool {
    cost.tx_count != cost.reported_tx_count
}

/// The transactions of all blocks together.
pub open spec fn total_tx(costs: Seq<BlockCost>) -> nat
    decreases costs.len(),
{
    if costs.len() == 0 {
        0
    } else {
        total_tx(costs.drop_last()) + costs.last().tx_count as nat
    }
}

/// The time of all blocks together.
pub open spec fn total_nanos(costs: Seq<BlockCost>) -> nat
    decreases costs.len(),
{
    if costs.len() == 0 {
        0
    } else {
        total_nanos(costs.drop_last()) + costs.last().deser_sanitize_nanos as nat
    }
}

/// The bytes of all blocks together.
pub open spec fn total_bytes(costs: Seq<BlockCost>) -> nat
    decreases costs.len(),
{
    if costs.len() == 0 {
        0
    } else {
        total_bytes(costs.drop_last()) + costs.last().bytes as nat
    }
}

/// What is told of a single block is its own: all its transactions, all its
/// bytes and all its time.
pub proof fn lemma_totals_of_one(cost: BlockCost)
    ensures
        total_tx(seq![cost]) == cost.tx_count,
        total_bytes(seq![cost]) == cost.bytes,
        total_nanos(seq![cost]) == cost.deser_sanitize_nanos,
{
    let none = Seq::<BlockCost>::empty();
    assert(seq![cost].drop_last() =~= none);
    assert(total_tx(none) == 0 && total_bytes(none) == 0 && total_nanos(none) == 0);
}

/// What is told of two runs of blocks put together is what is told of the first
/// and what is told of the second, added up; no blocks at all come to nothing.
pub proof fn lemma_totals_add_up(first: Seq<BlockCost>, second: Seq<BlockCost>)
    ensures
        total_tx(Seq::empty()) == 0,
        total_bytes(Seq::empty()) == 0,
        total_nanos(Seq::empty()) == 0,
        total_tx(first + second) == total_tx(first) + total_tx(second),
        total_bytes(first + second) == total_bytes(first) + total_bytes(second),
        total_nanos(first + second) == total_nanos(first) + total_nanos(second),
    decreases second.len(),
{
    if second.len() == 0 {
        assert(first + second =~= first);
    } else {
        lemma_totals_add_up(first, second.drop_last());
        assert((first + second).drop_last() =~= first + second.drop_last());
    }
}

/// A block that was not seen has no transactions, no bytes and took no time.
pub proof fn lemma_no_cost_is_nothing()
    ensures
        no_cost().tx_count == 0,
        no_cost().reported_tx_count == 0,
        no_cost().bytes == 0,
        no_cost().deser_sanitize_nanos == 0,
{
}

/// More blocks take no less time.
pub proof fn lemma_prefix_nanos(costs: Seq<BlockCost>, fewer: int, more: int)
    requires
        0 <= fewer <= more <= costs.len(),
    ensures
        total_nanos(costs.take(fewer)) <= total_nanos(costs.take(more)),
    decreases more - fewer,
{
    if fewer < more {
        lemma_prefix_nanos(costs, fewer, more - 1);
        assert(costs.take(more).drop_last() =~= costs.take(more - 1));
    }
}

/// More blocks have no fewer bytes.
pub proof fn lemma_prefix_bytes(costs: Seq<BlockCost>, fewer: int, more: int)
    requires
        0 <= fewer <= more <= costs.len(),
    ensures
        total_bytes(costs.take(fewer)) <= total_bytes(costs.take(more)),
    decreases more - fewer,
{
    if fewer < more {
        lemma_prefix_bytes(costs, fewer, more - 1);
        assert(costs.take(more).drop_last() =~= costs.take(more - 1));
    }
}

/// The bytes of a number of blocks are no more than that many times the most
/// that one block can have.
pub proof fn lemma_bytes_bound(costs: Seq<BlockCost>)
    ensures
        total_bytes(costs) <= costs.len() * usize::MAX,
    decreases costs.len(),
{
    if costs.len() > 0 {
        lemma_bytes_bound(costs.drop_last());
        let n = costs.len() as int;
        assert((n - 1) * usize::MAX + usize::MAX == n * usize::MAX) by (nonlinear_arith);
    }
}

proof fn lemma_prefix_tx(costs: Seq<BlockCost>, count: int)
    requires
        0 <= count <= costs.len(),
    ensures
        total_tx(costs.take(count)) <= total_tx(costs),
    decreases costs.len() - count,
{
    if count == costs.len() {
        assert(costs.take(count) =~= costs);
    } else {
        lemma_prefix_tx(costs, count + 1);
        assert(costs.take(count + 1).drop_last() =~= costs.take(count));
    }
}

/// The transactions of all blocks together, or `None` if their number does not
/// fit.
pub fn count_transactions(costs: &Vec<BlockCost>) -> (total: Option<usize>)
    ensures
        match total {
            Some(sum) => sum == total_tx(costs@),
            None => total_tx(costs@) > usize::MAX,
        },
{
    let mut sum: usize = 0;
    let mut i: usize = 0;
    while i < costs.len()
        invariant
            i <= costs@.len(),
            sum == total_tx(costs@.take(i as int)),
        decreases costs@.len() - i,
    {
        proof {
            lemma_prefix_tx(costs@, i + 1);
            assert(costs@.take(i + 1).drop_last() =~= costs@.take(i as int));
        }
        match sum.checked_add(costs[i].tx_count) {
            Some(more) => {
                sum = more;
            },
            None => {
                return None;
            },
        }
        i += 1;
    }
    assert(costs@.take(i as int) =~= costs@);
    Some(sum)
}

/// The time of the first `count` blocks, or `None` if it does not fit.
pub fn sum_nanos(costs: &Vec<BlockCost>, count: usize) -> (nanos: Option<u128>)
    requires
        count <= costs@.len(),
    ensures
        match nanos {
            Some(sum) => sum == total_nanos(costs@.take(count as int)),
            None => total_nanos(costs@.take(count as int)) > u128::MAX,
        },
{
    let mut sum: u128 = 0;
    let mut i: usize = 0;
    while i < count
        invariant
            i <= count <= costs@.len(),
            sum == total_nanos(costs@.take(i as int)),
        decreases count - i,
    {
        proof {
            lemma_prefix_nanos(costs@, i + 1, count as int);
            assert(costs@.take(i + 1).drop_last() =~= costs@.take(i as int));
        }
        match sum.checked_add(costs[i].deser_sanitize_nanos) {
            Some(more) => {
                sum = more;
            },
            None => {
                return None;
            },
        }
        i += 1;
    }
    Some(sum)
}

/// The bytes of the first `count` blocks.
pub fn sum_bytes(costs: &Vec<BlockCost>, count: usize) -> (bytes: u128)
    requires
        count <= costs@.len(),
    ensures
        bytes == total_bytes(costs@.take(count as int)),
        bytes <= count * usize::MAX,
{
    let mut sum: u128 = 0;
    let mut i: usize = 0;
    while i < count
        invariant
            i <= count <= costs@.len(),
            sum == total_bytes(costs@.take(i as int)),
            sum <= i * usize::MAX,
        decreases count - i,
    {
        assert(costs@.take(i + 1).drop_last() =~= costs@.take(i as int));
        assert(i * usize::MAX + usize::MAX == (i + 1) * usize::MAX) by (nonlinear_arith);
        assert((i + 1) * usize::MAX <= u128::MAX) by (nonlinear_arith)
            requires
                i < usize::MAX,
        ;
        sum += costs[i].bytes as u128;
        i += 1;
    }
    sum
}

/// The blocks that mismatch are those of which the number of transactions seen
/// differs from the number reported.
pub proof fn lemma_mismatches_are_different_counts(costs: Seq<BlockCost>)
    ensures
        costs.filter(|cost: BlockCost| is_mismatch(cost)) == costs.filter(
            |cost: BlockCost| cost.tx_count != cost.reported_tx_count,
        ),
    decreases costs.len(),
{
    reveal(Seq::filter);
    if costs.len() > 0 {
        lemma_mismatches_are_different_counts(costs.drop_last());
    }
}

/// The number of blocks of which more or fewer transactions were seen than they
/// report.
pub fn count_mismatches(costs: &Vec<BlockCost>) -> (mismatches: usize)
    ensures
        mismatches == costs@.filter(|cost: BlockCost| is_mismatch(cost)).len(),
        mismatches == costs@.filter(
            |cost: BlockCost| cost.tx_count != cost.reported_tx_count,
        ).len(),
{
    proof {
        lemma_mismatches_are_different_counts(costs@);
    }
    let ghost differs = |cost: BlockCost| is_mismatch(cost);
    let mut mismatches: usize = 0;
    let mut i: usize = 0;
    while i < costs.len()
        invariant
            i <= costs@.len(),
            mismatches <= i,
            differs == (|cost: BlockCost| is_mismatch(cost)),
            mismatches == costs@.take(i as int).filter(differs).len(),
        decreases costs@.len() - i,
    {
        proof {
            reveal(Seq::filter);
            assert(costs@.take(i + 1).drop_last() =~= costs@.take(i as int));
            assert(costs@.take(i + 1).last() == costs@[i as int]);
        }
        if costs[i].tx_count as u64 != costs[i].reported_tx_count {
            mismatches += 1;
        }
        i += 1;
    }
    assert(costs@.take(i as int) =~= costs@);
    mismatches
}

} // verus!

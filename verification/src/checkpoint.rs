//! When a checkpoint is due, and who may write it.
use vstd::prelude::*;

verus! {

/// Save every 50k slots.
pub const DEFAULT_CHECKPOINT_INTERVAL: u64 = 50_000;

/// The interval between checkpoints and the last slot that was claimed for one.
#[derive(Clone, Copy, Debug, PartialEq, Eq, Structural)]
pub struct CheckpointState {
    pub interval: u64,
    pub last_checkpoint_slot: u64,
}

/// A checkpoint is due at `current_slot` if the slot is a multiple of the
/// interval and lies beyond the last checkpoint.
pub open spec fn is_due(interval: u64, current_slot: u64, last_checkpoint: u64) -> bool {
    &&& current_slot as int % interval as int == 0
    &&& current_slot > last_checkpoint
}

impl Default for CheckpointState {
    fn default() -> (state: Self)
        ensures
            state.interval == DEFAULT_CHECKPOINT_INTERVAL,
            state.interval == 50_000,
            state.last_checkpoint_slot == 0,
    {
        CheckpointState { interval: DEFAULT_CHECKPOINT_INTERVAL, last_checkpoint_slot: 0 }
    }
}

impl CheckpointState {
    /// Whether a checkpoint is due at `current_slot`, for a caller that saw
    /// `last_checkpoint` as the last one.
    pub fn checkpoint_is_due(&self, current_slot: u64, last_checkpoint: u64) -> (due: bool)
        requires
            self.interval > 0,
        ensures
            due == is_due(self.interval, current_slot, last_checkpoint),
            due <==> current_slot % self.interval == 0 && current_slot > last_checkpoint,
    {
        current_slot % self.interval == 0 && current_slot > last_checkpoint
    }

    /// Claims `current_slot` for the caller, unless another checkpoint was
    /// claimed since the caller saw `last_checkpoint` as the last one.
    pub fn claim(&mut self, current_slot: u64, last_checkpoint: u64) -> (claimed: bool)
        ensures
            claimed == (old(self).last_checkpoint_slot == last_checkpoint),
            final(self).last_checkpoint_slot == after_claim(
                old(self).last_checkpoint_slot,
                ClaimAttempt { current_slot, last_checkpoint },
            ),
            final(self).last_checkpoint_slot == if claimed {
                current_slot
            } else {
                old(self).last_checkpoint_slot
            },
            final(self).interval == old(self).interval,
    {
        if self.last_checkpoint_slot == last_checkpoint {
            self.last_checkpoint_slot = current_slot;
            true
        } else {
            false
        }
    }
}

/// One call of [`CheckpointState::claim`].
pub struct ClaimAttempt {
    pub current_slot: u64,
    pub last_checkpoint: u64,
}

/// The last checkpoint after one attempt.
pub open spec fn after_claim(last_checkpoint_slot: u64, attempt: ClaimAttempt) -> u64 {
    if last_checkpoint_slot == attempt.last_checkpoint {
        attempt.current_slot
    } else {
        last_checkpoint_slot
    }
}

/// The last checkpoint after a run of attempts.
pub open spec fn after_claims(start: u64, attempts: Seq<ClaimAttempt>) -> u64
    decreases attempts.len(),
{
    if attempts.len() == 0 {
        start
    } else {
        after_claim(after_claims(start, attempts.drop_last()), attempts.last())
    }
}

/// The slots that a run of attempts claims, in the order of the claims.
pub open spec fn claimed_slots(start: u64, attempts: Seq<ClaimAttempt>) -> Seq<u64>
    decreases attempts.len(),
{
    if attempts.len() == 0 {
        Seq::empty()
    } else {
        let before = claimed_slots(start, attempts.drop_last());
        if after_claims(start, attempts.drop_last()) == attempts.last().last_checkpoint {
            before.push(attempts.last().current_slot)
        } else {
            before
        }
    }
}

/// A checkpoint is due at every multiple of the interval beyond the last one.
pub proof fn lemma_due_at_multiples(interval: u64, current_slot: u64, last: u64, multiple: nat)
    requires
        interval > 0,
        current_slot == multiple * interval,
    ensures
        is_due(interval, current_slot, last) <==> current_slot > last,
{
    vstd::arithmetic::div_mod::lemma_mod_multiples_basic(multiple as int, interval as int);
}

/// Between two multiples of the interval no checkpoint is due.
pub proof fn lemma_not_due_between(interval: u64, current_slot: u64, last: u64, multiple: nat)
    requires
        multiple * interval < current_slot < (multiple + 1) * interval,
    ensures
        !is_due(interval, current_slot, last),
{
    let beyond = current_slot - multiple * interval;
    assert(0 < beyond < interval) by (nonlinear_arith)
        requires
            beyond == current_slot - multiple * interval,
            multiple * interval < current_slot < (multiple + 1) * interval,
    ;
    vstd::arithmetic::div_mod::lemma_mod_multiples_vanish(
        multiple as int,
        beyond,
        interval as int,
    );
    vstd::arithmetic::div_mod::lemma_small_mod(beyond as nat, interval as nat);
    assert(interval * multiple == multiple * interval) by (nonlinear_arith);
}

/// An attempt that saw the last checkpoint as it is claims its slot; one that
/// saw another claims nothing and leaves the last checkpoint as it is.
pub proof fn lemma_claims_one_by_one(start: u64, attempts: Seq<ClaimAttempt>, next: ClaimAttempt)
    ensures
        after_claims(start, Seq::empty()) == start,
        claimed_slots(start, Seq::empty()) == Seq::<u64>::empty(),
        next.last_checkpoint == after_claims(start, attempts) ==> {
            &&& after_claims(start, attempts.push(next)) == next.current_slot
            &&& claimed_slots(start, attempts.push(next)) == claimed_slots(start, attempts).push(
                next.current_slot,
            )
        },
        next.last_checkpoint != after_claims(start, attempts) ==> {
            &&& after_claims(start, attempts.push(next)) == after_claims(start, attempts)
            &&& claimed_slots(start, attempts.push(next)) == claimed_slots(start, attempts)
        },
{
    assert(attempts.push(next).drop_last() =~= attempts);
}

/// However the attempts of several threads interleave, and whatever last
/// checkpoint each of them saw, the claimed slots only go up: no slot is
/// claimed twice, and none that lies before an earlier checkpoint.
pub proof fn lemma_claims_go_up(start: u64, attempts: Seq<ClaimAttempt>)
    requires
        forall|i: int|
            0 <= i < attempts.len() ==> (#[trigger] attempts[i]).current_slot
                > attempts[i].last_checkpoint,
    ensures
        forall|i: int, j: int|
            0 <= i < j < claimed_slots(start, attempts).len() ==> #[trigger] claimed_slots(
                start,
                attempts,
            )[i] < #[trigger] claimed_slots(start, attempts)[j],
        forall|i: int|
            0 <= i < claimed_slots(start, attempts).len() ==> start < #[trigger] claimed_slots(
                start,
                attempts,
            )[i] <= after_claims(start, attempts),
        start <= after_claims(start, attempts),
    decreases attempts.len(),
{
    if attempts.len() > 0 {
        let rest = attempts.drop_last();
        assert forall|i: int| 0 <= i < rest.len() implies (#[trigger] rest[i]).current_slot
            > rest[i].last_checkpoint by {
            assert(rest[i] == attempts[i]);
        }
        lemma_claims_go_up(start, rest);
        assert(attempts[attempts.len() - 1] == attempts.last());
        let before = claimed_slots(start, rest);
        let now = claimed_slots(start, attempts);
        assert forall|i: int| 0 <= i < now.len() implies start < #[trigger] now[i] <= after_claims(
            start,
            attempts,
        ) by {
            if i < before.len() {
                assert(now[i] == before[i]);
            }
        }
        assert forall|i: int, j: int| 0 <= i < j < now.len() implies #[trigger] now[i]
            < #[trigger] now[j] by {
            assert(now[i] == before[i]);
            if j < before.len() {
                assert(now[j] == before[j]);
            }
        }
    }
}

/// If every attempt was made when a checkpoint was due, each claimed slot is a
/// positive multiple of the interval.
pub proof fn lemma_claims_are_multiples(interval: u64, start: u64, attempts: Seq<ClaimAttempt>)
    requires
        forall|i: int|
            0 <= i < attempts.len() ==> is_due(
                interval,
                (#[trigger] attempts[i]).current_slot,
                attempts[i].last_checkpoint,
            ),
    ensures
        forall|i: int|
            0 <= i < claimed_slots(start, attempts).len() ==> (#[trigger] claimed_slots(
                start,
                attempts,
            )[i]) > 0 && claimed_slots(start, attempts)[i] as int % interval as int == 0,
    decreases attempts.len(),
{
    if attempts.len() > 0 {
        let rest = attempts.drop_last();
        assert forall|i: int| 0 <= i < rest.len() implies is_due(
            interval,
            (#[trigger] rest[i]).current_slot,
            rest[i].last_checkpoint,
        ) by {
            assert(rest[i] == attempts[i]);
        }
        lemma_claims_are_multiples(interval, start, rest);
        assert(attempts[attempts.len() - 1] == attempts.last());
        let before = claimed_slots(start, rest);
        let now = claimed_slots(start, attempts);
        assert forall|i: int| 0 <= i < now.len() implies (#[trigger] now[i]) > 0 && now[i] as int
            % interval as int == 0 by {
            if i < before.len() {
                assert(now[i] == before[i]);
            }
        }
    }
}

} // verus!

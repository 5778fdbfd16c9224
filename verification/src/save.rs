//! How a file is replaced: under a lock, its new contents are put together and
//! go to a temporary file first, which takes the file's name once it is safely
//! on disk.
use vstd::prelude::*;
use vstd::string::*;

verus! {

/// What has to be done next.
#[derive(Clone, Copy, Debug, PartialEq, Eq, Structural)]
pub enum SaveStep {
    /// Acquire the lock that keeps saves apart.
    Lock,
    /// Turn what is to be saved into bytes.
    Serialize,
    /// Create the temporary file.
    Create,
    /// Write the contents to it.
    Write,
    /// Wait until they are on disk.
    Sync,
    /// Rename it to the file that it replaces.
    Rename,
}

impl SaveStep {
    /// How many steps come before this one.
    pub open spec fn place(self) -> nat {
        match self {
            SaveStep::Lock => 0,
            SaveStep::Serialize => 1,
            SaveStep::Create => 2,
            SaveStep::Write => 3,
            SaveStep::Sync => 4,
            SaveStep::Rename => 5,
        }
    }
}

/// How far a save has come.
#[derive(Clone, Copy, Debug, PartialEq, Eq, Structural)]
pub enum SaveState {
    Next(SaveStep),
    Done,
    Failed(SaveStep),
}

/// The state in which a save begins.
pub open spec fn initial_state() -> SaveState {
    SaveState::Next(SaveStep::Lock)
}

/// The state after the outcome of the step that was next. A step that fails
/// ends the save, and so does the last.
pub open spec fn state_after(state: SaveState, succeeded: bool) -> SaveState {
    match state {
        SaveState::Next(step) => if !succeeded {
            SaveState::Failed(step)
        } else {
            match step {
                SaveStep::Lock => SaveState::Next(SaveStep::Serialize),
                SaveStep::Serialize => SaveState::Next(SaveStep::Create),
                SaveStep::Create => SaveState::Next(SaveStep::Write),
                SaveStep::Write => SaveState::Next(SaveStep::Sync),
                SaveStep::Sync => SaveState::Next(SaveStep::Rename),
                SaveStep::Rename => SaveState::Done,
            }
        },
        _ => state,
    }
}

/// The state after a run of outcomes.
pub open spec fn state_after_all(outcomes: Seq<bool>) -> SaveState
    decreases outcomes.len(),
{
    if outcomes.len() == 0 {
        initial_state()
    } else {
        state_after(state_after_all(outcomes.drop_last()), outcomes.last())
    }
}

impl SaveState {
    /// The state in which a save begins.
    pub fn begin() -> (state: SaveState)
        ensures
            state == initial_state(),
    {
        SaveState::Next(SaveStep::Lock)
    }

    /// Takes note of the outcome of the step that was next.
    pub fn advance(self, succeeded: bool) -> (next: SaveState)
        ensures
            next == state_after(self, succeeded),
            !succeeded ==> (self matches SaveState::Next(step) ==> next == SaveState::Failed(step)),
            !(self is Next) ==> next == self,
    {
        match self {
            SaveState::Next(step) => if !succeeded {
                SaveState::Failed(step)
            } else {
                match step {
                    SaveStep::Lock => SaveState::Next(SaveStep::Serialize),
                    SaveStep::Serialize => SaveState::Next(SaveStep::Create),
                    SaveStep::Create => SaveState::Next(SaveStep::Write),
                    SaveStep::Write => SaveState::Next(SaveStep::Sync),
                    SaveStep::Sync => SaveState::Next(SaveStep::Rename),
                    SaveStep::Rename => SaveState::Done,
                }
            },
            SaveState::Done => SaveState::Done,
            SaveState::Failed(step) => SaveState::Failed(step),
        }
    }
}

/// The name of the temporary file for `filename`.
pub fn temp_filename(filename: &str) -> (temp: String)
    ensures
        temp@ == filename@ + ".tmp"@,
{
    let mut temp = filename.to_owned();
    temp.append(".tmp");
    temp
}

/// The temporary file is not the file that it replaces.
pub proof fn lemma_temp_filename_differs(filename: Seq<char>)
    ensures
        filename + ".tmp"@ != filename,
{
    reveal_strlit(".tmp");
    assert((filename + ".tmp"@).len() == filename.len() + 4);
}

/// The lock comes first; then the contents are put together, the temporary file
/// is created, written and synced, and at last it is renamed. A step that fails
/// ends the save there, and a save that has ended stays as it is.
pub proof fn lemma_steps_in_order(step: SaveStep, succeeded: bool)
    ensures
        initial_state() == SaveState::Next(SaveStep::Lock),
        state_after(SaveState::Next(SaveStep::Lock), true) == SaveState::Next(SaveStep::Serialize),
        state_after(SaveState::Next(SaveStep::Serialize), true) == SaveState::Next(
            SaveStep::Create,
        ),
        state_after(SaveState::Next(SaveStep::Create), true) == SaveState::Next(SaveStep::Write),
        state_after(SaveState::Next(SaveStep::Write), true) == SaveState::Next(SaveStep::Sync),
        state_after(SaveState::Next(SaveStep::Sync), true) == SaveState::Next(SaveStep::Rename),
        state_after(SaveState::Next(SaveStep::Rename), true) == SaveState::Done,
        state_after(SaveState::Next(step), false) == SaveState::Failed(step),
        state_after(SaveState::Done, succeeded) == SaveState::Done,
        state_after(SaveState::Failed(step), succeeded) == SaveState::Failed(step),
{
}

/// Outcomes lead from one state to the next, beginning with the first step.
pub proof fn lemma_outcomes_one_by_one(outcomes: Seq<bool>, succeeded: bool)
    ensures
        state_after_all(Seq::empty()) == SaveState::Next(SaveStep::Lock),
        state_after_all(outcomes.push(succeeded)) == state_after(
            state_after_all(outcomes),
            succeeded,
        ),
{
    assert(outcomes.push(succeeded).drop_last() =~= outcomes);
}

/// The outcomes up to that of `step` were good, and that of `step` was not.
pub open spec fn fails_first_at(outcomes: Seq<bool>, step: SaveStep) -> bool {
    &&& step.place() < outcomes.len()
    &&& !outcomes[step.place() as int]
    &&& forall|i: int| 0 <= i < step.place() ==> #[trigger] outcomes[i]
}

/// A save is done if and only if all its six steps succeeded.
pub proof fn lemma_done_when_all_succeed(outcomes: Seq<bool>)
    ensures
        state_after_all(outcomes) == SaveState::Done <==> outcomes.len() >= 6 && forall|i: int|
            0 <= i < 6 ==> #[trigger] outcomes[i],
{
    lemma_progress(outcomes);
    if outcomes.len() >= 6 && forall|i: int| 0 <= i < 6 ==> #[trigger] outcomes[i] {
        if let SaveState::Failed(step) = state_after_all(outcomes) {
            assert(outcomes[step.place() as int]);
        }
    }
}

/// A save fails at a step if and only if that is the first step that failed.
pub proof fn lemma_fails_at_first_failure(outcomes: Seq<bool>, step: SaveStep)
    ensures
        state_after_all(outcomes) == SaveState::Failed(step) <==> fails_first_at(outcomes, step),
{
    lemma_progress(outcomes);
    if fails_first_at(outcomes, step) {
        assert(!outcomes[step.place() as int]);
        if let SaveState::Failed(other) = state_after_all(outcomes) {
            assert(!outcomes[other.place() as int]);
            assert(other.place() == step.place());
        }
    }
}

/// Once a step has failed, no later one is ever next. So without the lock
/// nothing is put together; without the contents no file is created; and the
/// file that was there is not replaced unless the new one is whole.
pub proof fn lemma_failure_ends_save(outcomes: Seq<bool>, step: SaveStep, count: int)
    requires
        fails_first_at(outcomes, step),
        0 <= count <= outcomes.len(),
    ensures
        state_after_all(outcomes.take(count)) matches SaveState::Next(next) ==> next.place()
            <= step.place(),
{
    let before = outcomes.take(count);
    lemma_progress(before);
    if let SaveState::Next(next) = state_after_all(before) {
        if next.place() > step.place() {
            assert(before[step.place() as int]);
        }
    }
}

/// A step is next only when all the steps before it succeeded.
pub proof fn lemma_next_after_success(outcomes: Seq<bool>, step: SaveStep)
    ensures
        state_after_all(outcomes) == SaveState::Next(step) <==> outcomes.len() == step.place()
            && forall|i: int| 0 <= i < outcomes.len() ==> #[trigger] outcomes[i],
{
    lemma_progress(outcomes);
    if outcomes.len() == step.place() && forall|i: int|
        0 <= i < outcomes.len() ==> #[trigger] outcomes[i] {
        if let SaveState::Failed(other) = state_after_all(outcomes) {
            assert(outcomes[other.place() as int]);
        }
    }
}

/// What each state tells of the outcomes that led to it.
proof fn lemma_progress(outcomes: Seq<bool>)
    ensures
        match state_after_all(outcomes) {
            SaveState::Next(step) => {
                &&& outcomes.len() == step.place()
                &&& forall|i: int| 0 <= i < outcomes.len() ==> #[trigger] outcomes[i]
            },
            SaveState::Done => {
                &&& outcomes.len() >= 6
                &&& forall|i: int| 0 <= i < 6 ==> #[trigger] outcomes[i]
            },
            SaveState::Failed(step) => fails_first_at(outcomes, step),
        },
    decreases outcomes.len(),
{
    if outcomes.len() > 0 {
        let rest = outcomes.drop_last();
        lemma_progress(rest);
        assert forall|i: int| 0 <= i < rest.len() implies #[trigger] outcomes[i] == rest[i] by {}
    }
}

} // verus!

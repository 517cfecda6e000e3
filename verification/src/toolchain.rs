use vstd::prelude::*;

verus! {

/// The steps that turn a module into a native artifact, in their order:
/// write the module as text, turn the text into assembly, turn the assembly
/// into the artifact, remove the text.
#[derive(Debug, PartialEq, Eq, Clone, Copy)]
pub enum Step {
    Emit,
    Assemble,
    Link,
    Remove,
}

/// The step that failed first.
#[derive(Debug, PartialEq, Eq, Clone, Copy)]
pub struct ToolchainError {
    pub failed: Step,
}

/// Where the handoff stands: a step is running, with the failure met so
/// far if any, or all is over.
#[derive(Debug, PartialEq, Eq, Clone, Copy)]
pub enum Handoff {
    Running { step: Step, failure: Option<Step> },
    Over { failure: Option<Step> },
}

/// What the driver is to do next: run a step and wait for its end, or stop
/// with the outcome of the whole.
#[derive(Debug, PartialEq, Eq, Clone, Copy)]
pub enum Action {
    Run(Step),
    Finish(Result<(), ToolchainError>),
}

/// The outcome of the whole, given the first failure.
pub open spec fn outcome(failure: Option<Step>) -> Result<(), ToolchainError> {
    match failure {
        Some(failed) => Err(ToolchainError { failed }),
        None => Ok(()),
    }
}

/// What follows the end of the running step.
///
/// Each step starts only once the one before it has ended. Where writing the
/// text fails there is nothing to go on with. Where a tool fails, the text is
/// still removed, and the failure of the tool is the outcome. The text is
/// removed once no tool needs it any more, and never before.
pub open spec fn after(state: Handoff, succeeded: bool) -> (Handoff, Action) {
    match state {
        Handoff::Over { failure } => (state, Action::Finish(outcome(failure))),
        Handoff::Running { step, failure } => {
            let first = if failure is None && !succeeded {
                Some(step)
            } else {
                failure
            };
            match step {
                Step::Emit => if succeeded {
                    (
                        Handoff::Running { step: Step::Assemble, failure: first },
                        Action::Run(Step::Assemble),
                    )
                } else {
                    (Handoff::Over { failure: first }, Action::Finish(outcome(first)))
                },
                Step::Assemble => if succeeded {
                    (Handoff::Running { step: Step::Link, failure: first }, Action::Run(Step::Link))
                } else {
                    (
                        Handoff::Running { step: Step::Remove, failure: first },
                        Action::Run(Step::Remove),
                    )
                },
                Step::Link => (
                    Handoff::Running { step: Step::Remove, failure: first },
                    Action::Run(Step::Remove),
                ),
                Step::Remove => (Handoff::Over { failure: first }, Action::Finish(outcome(first))),
            }
        },
    }
}

/// The state in which a handoff starts: the text is being written.
pub open spec fn initial() -> Handoff {
    Handoff::Running { step: Step::Emit, failure: None }
}

/// Starts a handoff: the first thing to do is to write the text.
pub fn start() -> (r: (Handoff, Action))
    ensures
        r == (initial(), Action::Run(Step::Emit)),
{
    (Handoff::Running { step: Step::Emit, failure: None }, Action::Run(Step::Emit))
}

fn finish(failure: Option<Step>) -> (r: (Handoff, Action))
    ensures
        r == (Handoff::Over { failure }, Action::Finish(outcome(failure))),
{
    let result = match failure {
        Some(failed) => Err(ToolchainError { failed }),
        None => Ok(()),
    };
    (Handoff::Over { failure }, Action::Finish(result))
}

fn run(step: Step, failure: Option<Step>) -> (r: (Handoff, Action))
    ensures
        r == (Handoff::Running { step, failure }, Action::Run(step)),
{
    (Handoff::Running { step, failure }, Action::Run(step))
}

/// Takes note that the running step has ended, and says what to do next.
pub fn advance(state: Handoff, succeeded: bool) -> (r: (Handoff, Action))
    ensures
        r == after(state, succeeded),
{
    match state {
        Handoff::Over { failure } => finish(failure),
        Handoff::Running { step, failure } => {
            let first = match failure {
                Some(earlier) => Some(earlier),
                None => if succeeded {
                    None
                } else {
                    Some(step)
                },
            };
            match step {
                Step::Emit => if succeeded {
                    run(Step::Assemble, first)
                } else {
                    finish(first)
                },
                Step::Assemble => if succeeded {
                    run(Step::Link, first)
                } else {
                    run(Step::Remove, first)
                },
                Step::Link => run(Step::Remove, first),
                Step::Remove => finish(first),
            }
        },
    }
}

/// The state that a run of step endings leads to, from the start.
pub open spec fn reached(endings: Seq<bool>) -> Handoff
    decreases endings.len(),
{
    if endings.len() == 0 {
        initial()
    } else {
        after(reached(endings.drop_last()), endings.last()).0
    }
}

/// What holds of every state that can be reached: no tool runs after a
/// failure, and the text is removed after a failure only if that failure
/// was a tool's or its own.
pub open spec fn consistent(state: Handoff) -> bool {
    match state {
        Handoff::Running { step: Step::Emit, failure } => failure is None,
        Handoff::Running { step: Step::Assemble, failure } => failure is None,
        Handoff::Running { step: Step::Link, failure } => failure is None,
        Handoff::Running { step: Step::Remove, failure } => failure != Some(Step::Emit)
            && failure != Some(Step::Remove),
        Handoff::Over { failure } => true,
    }
}

/// Every state that can be reached is consistent.
pub proof fn lemma_reached_is_consistent(endings: Seq<bool>)
    ensures
        consistent(reached(endings)),
    decreases endings.len(),
{
    if endings.len() > 0 {
        lemma_reached_is_consistent(endings.drop_last());
    }
}

/// A tool is started only when every step before it has succeeded: the
/// assembler after the text was written, the linker after the assembler.
pub proof fn lemma_tools_follow_success(endings: Seq<bool>, succeeded: bool)
    ensures
        after(reached(endings), succeeded).1 == Action::Run(Step::Assemble) ==> succeeded
            && reached(endings) == initial(),
        after(reached(endings), succeeded).1 == Action::Run(Step::Link) ==> succeeded && reached(
            endings,
        ) == (Handoff::Running { step: Step::Assemble, failure: None }),
{
    lemma_reached_is_consistent(endings);
}

/// The text is removed only once no tool needs it any more: right after the
/// linker has ended, or right after the assembler has failed.
pub proof fn lemma_removal_comes_last(endings: Seq<bool>, succeeded: bool)
    ensures
        after(reached(endings), succeeded).1 == Action::Run(Step::Remove) ==> (reached(endings)
            matches Handoff::Running { step, .. } && (step == Step::Link || (step
            == Step::Assemble && !succeeded))),
{
}

/// The one way to the removal of the text without a failure: the three
/// steps before it have all succeeded.
pub proof fn lemma_clean_run(endings: Seq<bool>)
    requires
        reached(endings) == (Handoff::Running { step: Step::Remove, failure: None }),
    ensures
        endings == seq![true, true, true],
{
    assert(endings.len() > 0);
    let linked = endings.drop_last();
    assert(reached(linked) == (Handoff::Running { step: Step::Link, failure: None })
        && endings.last());
    assert(linked.len() > 0);
    let assembled = linked.drop_last();
    assert(reached(assembled) == (Handoff::Running { step: Step::Assemble, failure: None })
        && linked.last());
    assert(assembled.len() > 0);
    let written = assembled.drop_last();
    assert(reached(written) == initial() && assembled.last());
    assert(written.len() == 0);
    assert(endings =~= seq![true, true, true]);
}

/// The whole succeeds only where all four steps have run and succeeded;
/// otherwise the first failure is the outcome.
pub proof fn lemma_success_is_earned(endings: Seq<bool>, succeeded: bool)
    requires
        reached(endings) is Running,
        after(reached(endings), succeeded).1 == Action::Finish(Ok::<(), ToolchainError>(())),
    ensures
        endings == seq![true, true, true],
        succeeded,
{
    lemma_clean_run(endings);
}

} // verus!

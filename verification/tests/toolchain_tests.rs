use jargonoc::toolchain::{advance, start, Action, Handoff, Step, ToolchainError};

/// Runs a handoff in which the steps end as `endings` says, and gives the
/// steps that were asked for and the outcome.
fn drive(endings: &[bool]) -> (Vec<Step>, Result<(), ToolchainError>) {
    let (mut state, mut action) = start();
    let mut steps = Vec::new();
    let mut endings = endings.iter();
    loop {
        match action {
            Action::Run(step) => {
                steps.push(step);
                let next = advance(state, *endings.next().unwrap());
                state = next.0;
                action = next.1;
            }
            Action::Finish(outcome) => {
                assert_eq!(endings.next(), None);
                assert_eq!(state, Handoff::Over { failure: outcome.err().map(|e| e.failed) });
                return (steps, outcome);
            }
        }
    }
}

fn failed(step: Step) -> Result<(), ToolchainError> {
    Err(ToolchainError { failed: step })
}

#[test]
fn a_clean_run_takes_all_four_steps() {
    assert_eq!(
        drive(&[true, true, true, true]),
        (vec![Step::Emit, Step::Assemble, Step::Link, Step::Remove], Ok(()))
    );
}

#[test]
fn nothing_follows_a_failed_emission() {
    assert_eq!(drive(&[false]), (vec![Step::Emit], failed(Step::Emit)));
}

#[test]
fn a_failed_assembler_skips_the_linker_and_still_cleans_up() {
    assert_eq!(
        drive(&[true, false, true]),
        (vec![Step::Emit, Step::Assemble, Step::Remove], failed(Step::Assemble))
    );
}

#[test]
fn a_failed_linker_still_cleans_up() {
    assert_eq!(
        drive(&[true, true, false, true]),
        (vec![Step::Emit, Step::Assemble, Step::Link, Step::Remove], failed(Step::Link))
    );
}

#[test]
fn a_failed_removal_is_a_failure() {
    assert_eq!(
        drive(&[true, true, true, false]),
        (vec![Step::Emit, Step::Assemble, Step::Link, Step::Remove], failed(Step::Remove))
    );
}

#[test]
fn the_first_failure_is_the_outcome() {
    assert_eq!(
        drive(&[true, false, false]),
        (vec![Step::Emit, Step::Assemble, Step::Remove], failed(Step::Assemble))
    );
    assert_eq!(
        drive(&[true, true, false, false]),
        (vec![Step::Emit, Step::Assemble, Step::Link, Step::Remove], failed(Step::Link))
    );
}

#[test]
fn what_is_over_stays_over() {
    let over = Handoff::Over { failure: Some(Step::Link) };
    assert_eq!(advance(over, true), (over, Action::Finish(failed(Step::Link))));
    assert_eq!(advance(over, false), (over, Action::Finish(failed(Step::Link))));
    let done = Handoff::Over { failure: None };
    assert_eq!(advance(done, false), (done, Action::Finish(Ok(()))));
}

#[test]
fn the_start_is_the_emission() {
    assert_eq!(
        start(),
        (Handoff::Running { step: Step::Emit, failure: None }, Action::Run(Step::Emit))
    );
}

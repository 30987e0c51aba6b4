use cman::commands::build_steps::{next_build_step, start_build, BuildAction, BuildEvent};
use cman::error::CmanError;

fn name(action: &BuildAction<Vec<usize>>) -> String {
    match action {
        BuildAction::RemoveArtifacts { unit } => format!("remove {unit}"),
        BuildAction::Compile { units } => format!("compile {units:?}"),
        BuildAction::RemoveBinary => "remove bin".to_string(),
        BuildAction::Link => "link".to_string(),
        BuildAction::RecordFlags => "record".to_string(),
        BuildAction::Finish => "finish".to_string(),
        BuildAction::Fail(error) => format!("fail {}", error.message()),
    }
}

/// Drive a build, answering every action with success, and list the actions.
fn drive(stale: Vec<bool>, out_of_date: bool) -> Vec<String> {
    let mut state = start_build(stale, out_of_date);
    let mut event = BuildEvent::Start;
    let mut seen = Vec::new();
    loop {
        let (next, action) = next_build_step(state, event);
        state = next;
        seen.push(name(&action));
        event = match action {
            BuildAction::RemoveArtifacts { .. } | BuildAction::RemoveBinary => BuildEvent::Removed,
            BuildAction::Compile { .. } => BuildEvent::Compiled(Ok(())),
            BuildAction::Link => BuildEvent::Linked(Ok(())),
            BuildAction::RecordFlags => BuildEvent::Recorded,
            BuildAction::Finish | BuildAction::Fail(_) => break,
        };
    }
    seen
}

#[test]
fn stale_units_are_cleared_compiled_and_linked() {
    assert_eq!(
        drive(vec![true, false, true], false),
        vec!["remove 0", "remove 2", "compile [0, 2]", "remove bin", "link", "record", "finish"]
    );
}

#[test]
fn an_out_of_date_binary_is_only_relinked() {
    assert_eq!(drive(vec![false, false], true), vec!["remove bin", "link", "record", "finish"]);
}

#[test]
fn an_up_to_date_build_only_records_the_flags() {
    assert_eq!(drive(vec![false], false), vec!["record", "finish"]);
    assert_eq!(drive(vec![], false), vec!["record", "finish"]);
}

#[test]
fn a_failed_compile_stops_before_linking() {
    let state = start_build(vec![true], false);
    let (state, action) = next_build_step(state, BuildEvent::Start);
    assert_eq!(name(&action), "remove 0");
    let (state, action) = next_build_step(state, BuildEvent::Removed);
    assert_eq!(name(&action), "compile [0]");
    let (_, action) = next_build_step(state, BuildEvent::Compiled(Err(CmanError::LinkFailed)));
    assert!(matches!(action, BuildAction::Fail(CmanError::LinkFailed)));
}

#[test]
fn a_failed_link_records_nothing() {
    let state = start_build(vec![false], true);
    let (state, action) = next_build_step(state, BuildEvent::Start);
    assert_eq!(name(&action), "remove bin");
    let (state, action) = next_build_step(state, BuildEvent::Removed);
    assert_eq!(name(&action), "link");
    let (_, action) = next_build_step(state, BuildEvent::Linked(Err(CmanError::LinkFailed)));
    assert!(matches!(action, BuildAction::Fail(CmanError::LinkFailed)));
}

#[test]
fn an_answer_to_another_action_changes_nothing() {
    let state = start_build(vec![true], false);
    let (state, _) = next_build_step(state, BuildEvent::Start);
    let (_, action) = next_build_step(state, BuildEvent::Recorded);
    assert_eq!(name(&action), "remove 0");
}

use mdout::app::{AppAction, AppEvent, InputMsg, RunState, WriteOutcome};

#[test]
fn chunks_accumulate_and_draw_when_due() {
    let mut s = RunState::new();
    assert_eq!(s.step(AppEvent::Input(InputMsg::Chunk("# a".into())), false), AppAction::Wait);
    assert_eq!(s.step(AppEvent::Input(InputMsg::Chunk("b\n".into())), true), AppAction::Draw);
    assert_eq!(s.buf, "# ab\n");
    assert!(s.dirty);
    assert_eq!(s.step(AppEvent::Written(WriteOutcome::Written), false), AppAction::Wait);
    assert!(!s.dirty);
    assert_eq!(s.step(AppEvent::Timeout, false), AppAction::Wait);
    assert_eq!(s.step(AppEvent::Input(InputMsg::Chunk("c".into())), false), AppAction::Wait);
    assert_eq!(s.step(AppEvent::Timeout, false), AppAction::Draw);
}

#[test]
fn end_of_input_draws_final_and_exits_zero() {
    let mut s = RunState::new();
    s.step(AppEvent::Input(InputMsg::Chunk("x".into())), false);
    assert_eq!(s.step(AppEvent::Input(InputMsg::Eof), false), AppAction::DrawFinal);
    assert_eq!(s.step(AppEvent::Written(WriteOutcome::Written), false), AppAction::Exit(0));
    let mut s = RunState::new();
    assert_eq!(s.step(AppEvent::Disconnected, false), AppAction::DrawFinal);
}

#[test]
fn read_error_finishes_and_exits_one() {
    let mut s = RunState::new();
    assert_eq!(s.step(AppEvent::Input(InputMsg::Error("boom".into())), false), AppAction::DrawFinal);
    assert_eq!(s.step(AppEvent::Written(WriteOutcome::Written), false), AppAction::Exit(1));
}

#[test]
fn broken_pipe_exits_zero_and_failure_one() {
    let mut s = RunState::new();
    assert_eq!(s.step(AppEvent::Written(WriteOutcome::Broken), false), AppAction::Exit(0));
    let mut s = RunState::new();
    assert_eq!(s.step(AppEvent::Written(WriteOutcome::Failed), false), AppAction::Exit(1));
    let mut s = RunState::new();
    s.step(AppEvent::Input(InputMsg::Error("e".into())), false);
    assert_eq!(s.step(AppEvent::Written(WriteOutcome::Broken), false), AppAction::Exit(0));
}

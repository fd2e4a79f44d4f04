use anyrun_core::broker::{
    close_exit_code, plan, show_outcome, Action, CallFault, ClientPlan, CloseError, Command,
    DaemonState, Event, InterfaceMethod, PostRunAction, ShowError,
};

#[test]
fn show_on_idle_launches_and_echoes_stdout() {
    let mut d = DaemonState::new();
    assert!(!d.active());
    assert_eq!(d.step(Event::Show), Action::Launch);
    assert!(d.active());
    let bytes = vec![104u8, 105, 10];
    let act = d.step(Event::SessionDone(PostRunAction::Stdout(bytes.clone())));
    assert_eq!(act, Action::ReplyShow(Ok(PostRunAction::Stdout(bytes.clone()))));
    assert!(!d.active());
    let out = show_outcome(Ok(PostRunAction::Stdout(bytes.clone())));
    assert_eq!(out.stdout, bytes);
    assert_eq!(out.exit_code, 0);
}

#[test]
fn second_show_is_refused_while_active() {
    let mut d = DaemonState::new();
    assert_eq!(d.step(Event::Show), Action::Launch);
    for _ in 0..3 {
        assert_eq!(d.step(Event::Show), Action::ReplyShow(Err(ShowError::AlreadyShowed)));
        assert!(d.active());
    }
    let out = show_outcome(Err(ShowError::AlreadyShowed));
    assert!(out.stdout.is_empty());
    assert_eq!(out.exit_code, 1);
}

#[test]
fn show_after_session_end_launches_again() {
    let mut d = DaemonState::new();
    assert_eq!(d.step(Event::Show), Action::Launch);
    assert_eq!(
        d.step(Event::SessionDone(PostRunAction::Nothing)),
        Action::ReplyShow(Ok(PostRunAction::Nothing))
    );
    assert_eq!(d.step(Event::Show), Action::Launch);
}

#[test]
fn close_on_idle_is_not_showed() {
    let mut d = DaemonState::new();
    assert_eq!(d.step(Event::Close), Action::ReplyClose(CloseError::NotShowed));
    assert!(!d.active());
    assert_eq!(close_exit_code(Err(CloseError::NotShowed)), 1);
    assert_eq!(close_exit_code(Ok(())), 0);
}

#[test]
fn close_on_active_signals_the_session() {
    let mut d = DaemonState::new();
    d.step(Event::Show);
    assert_eq!(d.step(Event::Close), Action::SignalCloseAndReply);
    assert!(d.active());
}

#[test]
fn quit_succeeds_in_any_state() {
    let mut d = DaemonState::new();
    assert_eq!(d.step(Event::Quit), Action::ReplyAndQuit);
    assert!(!d.active());
    d.step(Event::Show);
    assert_eq!(d.step(Event::Quit), Action::ReplyAndQuit);
    assert!(d.active());
}

#[test]
fn session_end_when_idle_is_ignored() {
    let mut d = DaemonState::new();
    assert_eq!(d.step(Event::SessionDone(PostRunAction::Nothing)), Action::Ignore);
    assert!(!d.active());
}

#[test]
fn parse_call_recognises_methods() {
    assert_eq!(
        InterfaceMethod::parse_call("Show", Some(vec![1, 2])),
        Ok(InterfaceMethod::Show(vec![1, 2]))
    );
    assert_eq!(InterfaceMethod::parse_call("Show", None), Err(CallFault::InvalidArgs));
    assert_eq!(InterfaceMethod::parse_call("Close", None), Ok(InterfaceMethod::Close));
    assert_eq!(InterfaceMethod::parse_call("Quit", Some(vec![])), Ok(InterfaceMethod::Quit));
    assert_eq!(InterfaceMethod::parse_call("Open", None), Err(CallFault::UnknownMethod));
    assert_eq!(InterfaceMethod::parse_call("show", Some(vec![])), Err(CallFault::UnknownMethod));
}

#[test]
fn call_events() {
    assert_eq!(InterfaceMethod::Show(vec![]).event(), Event::Show);
    assert_eq!(InterfaceMethod::Close.event(), Event::Close);
    assert_eq!(InterfaceMethod::Quit.event(), Event::Quit);
}

#[test]
fn client_plans() {
    assert_eq!(plan(None, true), ClientPlan::ShowRemote);
    assert_eq!(plan(None, false), ClientPlan::Standalone);
    assert_eq!(plan(Some(Command::Daemon), false), ClientPlan::RunDaemon);
    assert_eq!(plan(Some(Command::Close), true), ClientPlan::CloseRemote);
    assert_eq!(plan(Some(Command::Close), false), ClientPlan::NoDaemon);
    assert_eq!(plan(Some(Command::Quit), true), ClientPlan::QuitRemote);
    assert_eq!(plan(Some(Command::Quit), false), ClientPlan::NoDaemon);
}

#[test]
fn show_outcome_without_output() {
    let out = show_outcome(Ok(PostRunAction::Nothing));
    assert!(out.stdout.is_empty());
    assert_eq!(out.exit_code, 0);
}

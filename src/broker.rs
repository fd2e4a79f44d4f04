//! Session arbitration for the launcher daemon.
//!
//! The daemon reacts to one event at a time (a remote call or the end of a
//! session), so every decision is a pure step from the current state and the
//! event to the next state and the action that the caller must perform.
use vstd::prelude::*;

verus! {

/// What a finished session hands back to the process that asked for it.
#[derive(Debug, Clone, PartialEq, Eq)]
pub enum PostRunAction {
    Nothing,
    Stdout(Vec<u8>),
}

/// Why a `Show` request was refused.
#[derive(Debug, Clone, Copy, PartialEq, Eq, Structural)]
pub enum ShowError {
    AlreadyShowed,
}

/// Why a `Close` request was refused.
#[derive(Debug, Clone, Copy, PartialEq, Eq, Structural)]
pub enum CloseError {
    NotShowed,
}

/// The subcommands of the launcher's command line.
#[derive(Debug, Clone, Copy, PartialEq, Eq, Structural)]
pub enum Command {
    Daemon,
    Close,
    Quit,
}

/// A remote call, once its method name and payload have been recognised.
#[derive(Debug, Clone, PartialEq, Eq)]
pub enum InterfaceMethod {
    Show(Vec<u8>),
    Close,
    Quit,
}

/// A call that is refused at the interface, before it reaches the daemon.
#[derive(Debug, Clone, Copy, PartialEq, Eq, Structural)]
pub enum CallFault {
    UnknownMethod,
    InvalidArgs,
}

/// One event handled by the daemon.
#[derive(Debug, PartialEq, Eq)]
pub enum Event {
    Show,
    Close,
    Quit,
    /// The active session has ended with the given result.
    SessionDone(PostRunAction),
}

/// What the daemon has to do after an event.
#[derive(Debug, PartialEq, Eq)]
pub enum Action {
    /// Start a session; its result answers the pending `Show` later.
    Launch,
    /// Answer the `Show` call at once.
    ReplyShow(Result<PostRunAction, ShowError>),
    /// Ask the active session to close and answer the `Close` call with `Ok`.
    SignalCloseAndReply,
    /// Answer the `Close` call with an error.
    ReplyClose(CloseError),
    /// Answer the `Quit` call, then stop the daemon.
    ReplyAndQuit,
    /// Nothing to do.
    Ignore,
}

/// The daemon's state: whether a session is active.
pub struct DaemonState {
    active: bool,
}

/// The next state and the action for an event.
pub open spec fn next(active: bool, e: Event) -> (bool, Action) {
    match e {
        Event::Show => if active {
            (true, Action::ReplyShow(Err(ShowError::AlreadyShowed)))
        } else {
            (true, Action::Launch)
        },
        Event::Close => if active {
            (true, Action::SignalCloseAndReply)
        } else {
            (false, Action::ReplyClose(CloseError::NotShowed))
        },
        Event::Quit => (active, Action::ReplyAndQuit),
        Event::SessionDone(a) => if active {
            (false, Action::ReplyShow(Ok(a)))
        } else {
            (false, Action::Ignore)
        },
    }
}

/// The state and the actions after a sequence of events, from a given state.
pub open spec fn run(active: bool, events: Seq<Event>) -> (bool, Seq<Action>)
    decreases events.len(),
{
    if events.len() == 0 {
        (active, Seq::empty())
    } else {
        let (mid, acts) = run(active, events.drop_last());
        let (last, act) = next(mid, events.last());
        (last, acts.push(act))
    }
}

/// The number of sessions launched by a sequence of actions.
pub open spec fn launches(acts: Seq<Action>) -> nat
    decreases acts.len(),
{
    if acts.len() == 0 {
        0
    } else {
        launches(acts.drop_last()) + if acts.last() == Action::Launch { 1nat } else { 0nat }
    }
}

/// The number of session ends in a sequence of events.
pub open spec fn completions(events: Seq<Event>) -> nat
    decreases events.len(),
{
    if events.len() == 0 {
        0
    } else {
        completions(events.drop_last()) + if events.last() is SessionDone { 1nat } else { 0nat }
    }
}

impl DaemonState {
    pub closed spec fn is_active(&self) -> bool {
        self.active
    }

    /// A daemon that has just started: no session is active.
    pub fn new() -> (r: DaemonState)
        ensures
            !r.is_active(),
    {
        DaemonState { active: false }
    }

    /// Whether a session is active.
    pub fn active(&self) -> (r: bool)
        ensures
            r == self.is_active(),
    {
        self.active
    }

    /// Handles one event: moves to the next state and returns what to do.
    pub fn step(&mut self, e: Event) -> (r: Action)
        ensures
            (final(self).is_active(), r) == next(old(self).is_active(), e),
    {
        match e {
            Event::Show => {
                if self.active {
                    Action::ReplyShow(Err(ShowError::AlreadyShowed))
                } else {
                    self.active = true;
                    Action::Launch
                }
            },
            Event::Close => {
                if self.active {
                    Action::SignalCloseAndReply
                } else {
                    Action::ReplyClose(CloseError::NotShowed)
                }
            },
            Event::Quit => Action::ReplyAndQuit,
            Event::SessionDone(a) => {
                if self.active {
                    self.active = false;
                    Action::ReplyShow(Ok(a))
                } else {
                    Action::Ignore
                }
            },
        }
    }
}

/// While a session is active, a `Show` is refused and changes nothing.
pub proof fn lemma_show_while_active()
    ensures
        next(true, Event::Show) == (true, Action::ReplyShow(Err(ShowError::AlreadyShowed))),
{
}

/// From an active state, no session is launched until the active one has ended.
pub proof fn lemma_no_launch_until_done(events: Seq<Event>)
    requires
        completions(events) == 0,
    ensures
        run(true, events).0,
        launches(run(true, events).1) == 0,
    decreases events.len(),
{
    if events.len() > 0 {
        lemma_no_launch_until_done(events.drop_last());
        let acts = run(true, events.drop_last()).1;
        assert(run(true, events).1.drop_last() =~= acts);
    }
}

/// Over any sequence of events, the sessions launched never exceed the
/// sessions that ended by more than one: at most one session is active.
pub proof fn lemma_at_most_one_session(active: bool, events: Seq<Event>)
    ensures
        launches(run(active, events).1) + (if active { 1int } else { 0int })
            <= completions(events) + (if run(active, events).0 { 1int } else { 0int }),
    decreases events.len(),
{
    if events.len() > 0 {
        lemma_at_most_one_session(active, events.drop_last());
        let acts = run(active, events.drop_last()).1;
        assert(run(active, events).1.drop_last() =~= acts);
    }
}

/// Handing a `Close` to an idle daemon is refused with `NotShowed`.
pub proof fn lemma_close_when_idle()
    ensures
        next(false, Event::Close) == (false, Action::ReplyClose(CloseError::NotShowed)),
{
}

/// `Quit` is answered and stops the daemon whatever its state, which it leaves as it was.
pub proof fn lemma_quit_always(active: bool)
    ensures
        next(active, Event::Quit) == (active, Action::ReplyAndQuit),
{
}

/// Relies on `<str as PartialEq>::eq`: two string slices are equal when they
/// hold the same characters.
#[verifier::external_body]
fn str_eq(a: &str, b: &str) -> (r: bool)
    ensures
        r == (a@ == b@),
{
    a == b
}

/// The call that a method name and its payload stand for, as `parse_call` returns it.
pub open spec fn parse_call_spec(method: Seq<char>, args: Option<Vec<u8>>) -> Result<
    InterfaceMethod,
    CallFault,
> {
    if method == "Show"@ {
        match args {
            Some(b) => Ok(InterfaceMethod::Show(b)),
            None => Err(CallFault::InvalidArgs),
        }
    } else if method == "Close"@ {
        Ok(InterfaceMethod::Close)
    } else if method == "Quit"@ {
        Ok(InterfaceMethod::Quit)
    } else {
        Err(CallFault::UnknownMethod)
    }
}

impl InterfaceMethod {
    /// Recognises a remote call by its method name. `args` is the payload of a
    /// `Show` call when it could be read as a byte array, `None` otherwise;
    /// `Close` and `Quit` take no payload.
    pub fn parse_call(method: &str, args: Option<Vec<u8>>) -> (r: Result<InterfaceMethod, CallFault>)
        ensures
            r == parse_call_spec(method@, args),
    {
        if str_eq(method, "Show") {
            match args {
                Some(b) => Ok(InterfaceMethod::Show(b)),
                None => Err(CallFault::InvalidArgs),
            }
        } else if str_eq(method, "Close") {
            Ok(InterfaceMethod::Close)
        } else if str_eq(method, "Quit") {
            Ok(InterfaceMethod::Quit)
        } else {
            Err(CallFault::UnknownMethod)
        }
    }

    /// The daemon event that a recognised call raises.
    pub fn event(&self) -> (r: Event)
        ensures
            r == match self {
                InterfaceMethod::Show(_) => Event::Show,
                InterfaceMethod::Close => Event::Close,
                InterfaceMethod::Quit => Event::Quit,
            },
    {
        match self {
            InterfaceMethod::Show(_) => Event::Show,
            InterfaceMethod::Close => Event::Close,
            InterfaceMethod::Quit => Event::Quit,
        }
    }
}

/// What one run of the command-line client does.
#[derive(Debug, Clone, Copy, PartialEq, Eq, Structural)]
pub enum ClientPlan {
    /// Serve as the daemon.
    RunDaemon,
    /// Forward a `Show` to the running daemon and wait for its answer.
    ShowRemote,
    /// No daemon answers: run a session in this process.
    Standalone,
    /// Forward a `Close` to the running daemon.
    CloseRemote,
    /// Forward a `Quit` to the running daemon.
    QuitRemote,
    /// `Close` or `Quit` without a daemon: report it and exit with status 1.
    NoDaemon,
}

/// The plan for a subcommand, given whether a daemon answers.
pub open spec fn plan_spec(command: Option<Command>, daemon_running: bool) -> ClientPlan {
    match command {
        None => if daemon_running { ClientPlan::ShowRemote } else { ClientPlan::Standalone },
        Some(Command::Daemon) => ClientPlan::RunDaemon,
        Some(Command::Close) => if daemon_running { ClientPlan::CloseRemote } else { ClientPlan::NoDaemon },
        Some(Command::Quit) => if daemon_running { ClientPlan::QuitRemote } else { ClientPlan::NoDaemon },
    }
}

/// Decides what the client does for a subcommand.
pub fn plan(command: Option<Command>, daemon_running: bool) -> (r: ClientPlan)
    ensures
        r == plan_spec(command, daemon_running),
{
    match command {
        None => if daemon_running { ClientPlan::ShowRemote } else { ClientPlan::Standalone },
        Some(Command::Daemon) => ClientPlan::RunDaemon,
        Some(Command::Close) => if daemon_running { ClientPlan::CloseRemote } else { ClientPlan::NoDaemon },
        Some(Command::Quit) => if daemon_running { ClientPlan::QuitRemote } else { ClientPlan::NoDaemon },
    }
}

/// How the client ends after an answer: the bytes it writes to its standard
/// output and its exit status.
#[derive(Debug, Clone, PartialEq, Eq)]
pub struct ClientOutcome {
    pub stdout: Vec<u8>,
    pub exit_code: u8,
}

/// The outcome of a `Show` answer: the session's output is echoed as it is,
/// and a refusal exits with status 1.
pub fn show_outcome(reply: Result<PostRunAction, ShowError>) -> (r: ClientOutcome)
    ensures
        match reply {
            Ok(PostRunAction::Stdout(b)) => r.stdout@ == b@ && r.exit_code == 0,
            Ok(PostRunAction::Nothing) => r.stdout@.len() == 0 && r.exit_code == 0,
            Err(ShowError::AlreadyShowed) => r.stdout@.len() == 0 && r.exit_code == 1,
        },
{
    match reply {
        Ok(PostRunAction::Stdout(b)) => ClientOutcome { stdout: b, exit_code: 0 },
        Ok(PostRunAction::Nothing) => ClientOutcome { stdout: Vec::new(), exit_code: 0 },
        Err(ShowError::AlreadyShowed) => ClientOutcome { stdout: Vec::new(), exit_code: 1 },
    }
}

/// The exit status after a `Close` answer: 0 when a session was asked to
/// close, 1 when none was shown.
pub fn close_exit_code(reply: Result<(), CloseError>) -> (r: u8)
    ensures
        r == (if reply is Ok { 0u8 } else { 1u8 }),
{
    match reply {
        Ok(()) => 0,
        Err(CloseError::NotShowed) => 1,
    }
}

} // verus!

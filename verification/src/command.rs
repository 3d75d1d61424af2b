//! The command line: the modes the program runs in, and what it does in each.
use vstd::prelude::*;

verus! {

/// What the program is asked to do.
#[derive(Debug, Clone, Copy, PartialEq, Eq, Structural, PartialOrd, Ord)]
pub enum Mode {
    Run,
    Install,
    Remove,
    Stop,
    Debug,
}

/// The parsed command line: an optional mode.
pub struct Cli {
    pub mode: Option<Mode>,
}

/// How much the log records.
#[derive(Debug, Clone, Copy, PartialEq, Eq, Structural)]
pub enum LogLevel {
    Info,
    Debug,
}

/// What can be done to the scheduled task that starts the program at logon.
#[derive(Debug, Clone, Copy, PartialEq, Eq, Structural)]
pub enum TaskOp {
    Run,
    Stop,
    Remove,
}

/// One thing the program does on start.
#[derive(Debug, Clone, Copy, PartialEq, Eq, Structural)]
pub enum Step {
    /// Start logging to a file beside the program at this level.
    StartLogging(LogLevel),
    /// Rewrite the hosts file again and again, for ever.
    RefreshForever,
    /// Rewrite the hosts file once.
    RefreshOnce,
    /// Install the program as a Windows service and start it.
    InstallService,
    /// Remove the Windows service.
    RemoveService,
    /// Act on the scheduled task.
    Task(TaskOp),
}

/// What the program does for each mode, in order. With no mode it logs at
/// info level and keeps the hosts file up to date for ever; `install`
/// installs it as a Windows service and `remove` removes that service;
/// `run` starts the scheduled task and `stop` stops it; `debug` logs at
/// debug level and rewrites the hosts file once.
pub open spec fn launch_plan(mode: Option<Mode>) -> Seq<Step> {
    match mode {
        None => seq![Step::StartLogging(LogLevel::Info), Step::RefreshForever],
        Some(Mode::Run) => seq![Step::Task(TaskOp::Run)],
        Some(Mode::Install) => seq![Step::InstallService],
        Some(Mode::Remove) => seq![Step::RemoveService],
        Some(Mode::Stop) => seq![Step::Task(TaskOp::Stop)],
        Some(Mode::Debug) => seq![Step::StartLogging(LogLevel::Debug), Step::RefreshOnce],
    }
}

/// The steps the program takes for a command line (see [`launch_plan`]).
pub fn launch_steps(cli: &Cli) -> (r: Vec<Step>)
    ensures
        r@ == launch_plan(cli.mode),
{
    let mut r: Vec<Step> = Vec::new();
    match cli.mode {
        None => {
            r.push(Step::StartLogging(LogLevel::Info));
            r.push(Step::RefreshForever);
        },
        Some(Mode::Run) => {
            r.push(Step::Task(TaskOp::Run));
        },
        Some(Mode::Install) => {
            r.push(Step::InstallService);
        },
        Some(Mode::Remove) => {
            r.push(Step::RemoveService);
        },
        Some(Mode::Stop) => {
            r.push(Step::Task(TaskOp::Stop));
        },
        Some(Mode::Debug) => {
            r.push(Step::StartLogging(LogLevel::Debug));
            r.push(Step::RefreshOnce);
        },
    }
    proof {
        assert(r@ =~= launch_plan(cli.mode));
    }
    r
}

/// What a mode asks of the scheduled task: `run` runs it, `stop` stops it,
/// `remove` deletes it; the other modes leave it alone.
pub open spec fn task_op_of(status: Mode) -> Option<TaskOp> {
    match status {
        Mode::Run => Some(TaskOp::Run),
        Mode::Stop => Some(TaskOp::Stop),
        Mode::Remove => Some(TaskOp::Remove),
        _ => None,
    }
}

/// The operation on the scheduled task that a mode asks for (see
/// [`task_op_of`]).
pub fn task_operation(status: Mode) -> (r: Option<TaskOp>)
    ensures
        r == task_op_of(status),
{
    match status {
        Mode::Run => Some(TaskOp::Run),
        Mode::Stop => Some(TaskOp::Stop),
        Mode::Remove => Some(TaskOp::Remove),
        _ => None,
    }
}

/// The level name the logger is configured with.
pub fn log_level_name(level: LogLevel) -> (r: &'static str)
    ensures
        r@ == (match level {
            LogLevel::Info => seq!['i', 'n', 'f', 'o'],
            LogLevel::Debug => seq!['d', 'e', 'b', 'u', 'g'],
        }),
{
    proof {
        reveal_strlit("info");
        reveal_strlit("debug");
    }
    match level {
        LogLevel::Info => "info",
        LogLevel::Debug => "debug",
    }
}


/// A control request the service manager sends to the running service.
#[derive(Debug, Clone, Copy, PartialEq, Eq, Structural)]
pub enum ControlEvent {
    /// Asks for the service's status.
    Interrogate,
    /// Asks the service to stop.
    Stop,
    /// Any other request.
    Other,
}

/// How the service answers a control request.
#[derive(Debug, Clone, Copy, PartialEq, Eq, Structural)]
pub enum ControlReply {
    NoError,
    NotImplemented,
}

/// What the service does with a control request: status requests and stop
/// requests are answered with no error, and a stop request also tells the
/// service loop to shut down; every other request is not implemented.
pub open spec fn control_answer(event: ControlEvent) -> (ControlReply, bool) {
    match event {
        ControlEvent::Interrogate => (ControlReply::NoError, false),
        ControlEvent::Stop => (ControlReply::NoError, true),
        ControlEvent::Other => (ControlReply::NotImplemented, false),
    }
}

/// The answer to a control request and whether to signal shutdown (see
/// [`control_answer`]).
pub fn answer_control(event: ControlEvent) -> (r: (ControlReply, bool))
    ensures
        r == control_answer(event),
{
    match event {
        ControlEvent::Interrogate => (ControlReply::NoError, false),
        ControlEvent::Stop => (ControlReply::NoError, true),
        ControlEvent::Other => (ControlReply::NotImplemented, false),
    }
}

/// What the service loop learned by waiting a moment for a shutdown signal.
#[derive(Debug, Clone, Copy, PartialEq, Eq, Structural)]
pub enum ShutdownPoll {
    /// A shutdown signal came.
    Signalled,
    /// Nothing can signal any more.
    Disconnected,
    /// Nothing came in time.
    TimedOut,
}

/// The service loop goes on rewriting the hosts file only while no shutdown
/// signal came and one still can come.
pub fn keep_serving(poll: ShutdownPoll) -> (r: bool)
    ensures
        r == (poll == ShutdownPoll::TimedOut),
{
    match poll {
        ShutdownPoll::TimedOut => true,
        _ => false,
    }
}

/// The name the Windows service is installed under: `wsl2hosts.service.1`.
pub open spec fn service_name_text() -> Seq<char> {
    seq!['w', 's', 'l', '2', 'h', 'o', 's', 't', 's', '.', 's', 'e', 'r', 'v', 'i', 'c', 'e', '.', '1']
}

/// The name the Windows service is installed under.
pub fn service_name() -> (r: &'static str)
    ensures
        r@ == service_name_text(),
{
    proof {
        reveal_strlit("wsl2hosts.service.1");
    }
    "wsl2hosts.service.1"
}

} // verus!

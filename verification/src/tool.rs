//! The operating-system tools behind the library: which commands to run, and
//! what a finished run means.

use vstd::prelude::*;
use vstd::string::StringExecFns;
use crate::number::{decimal, decimal_text, push_decimal};
use crate::text::texts;

verus! {

/// The three tools that the library relies on.
#[derive(Clone, Copy, Debug, PartialEq, Eq)]
pub enum Tool {
    /// Lists the listening sockets.
    SocketLister,
    /// Reports the status of one process.
    ProcessStatus,
    /// Ends a process.
    Terminator,
}

/// A command line: a program and its arguments.
#[derive(Debug, PartialEq, Eq)]
pub struct ToolCommand {
    pub program: String,
    pub args: Vec<String>,
}

/// What a tool that ran to its end left behind.
#[derive(Debug, PartialEq, Eq)]
pub struct ToolOutput {
    pub success: bool,
    pub stdout: String,
    pub stderr: String,
}

/// How the attempt to run a tool ended.
#[derive(Debug, PartialEq, Eq)]
pub enum ToolRun {
    /// The tool could not be started; the text says why.
    Unavailable(String),
    /// The tool did not finish in the time allowed.
    TimedOut,
    /// The tool ran to its end.
    Completed(ToolOutput),
}

/// The mathematical content of a `ToolRun`.
pub ghost enum ToolRunView {
    Unavailable(Seq<char>),
    TimedOut,
    Completed { success: bool, stdout: Seq<char>, stderr: Seq<char> },
}

impl View for ToolRun {
    type V = ToolRunView;

    open spec fn view(&self) -> ToolRunView {
        match self {
            ToolRun::Unavailable(detail) => ToolRunView::Unavailable(detail@),
            ToolRun::TimedOut => ToolRunView::TimedOut,
            ToolRun::Completed(out) => ToolRunView::Completed {
                success: out.success,
                stdout: out.stdout@,
                stderr: out.stderr@,
            },
        }
    }
}

/// Why an operation of the library failed.
#[derive(Debug, PartialEq, Eq)]
pub enum PortError {
    /// The tool could not be started.
    ToolUnavailable { tool: Tool, detail: String },
    /// The tool ran and reported failure.
    ToolExecutionFailed { tool: Tool },
    /// The tool did not finish in the time allowed.
    ToolTimeout { tool: Tool },
    /// The process could not be ended; the text is the tool's own complaint.
    TerminationFailed { pid: u32, detail: String },
}

/// The mathematical content of a `PortError`.
pub ghost enum ErrorView {
    ToolUnavailable { tool: Tool, detail: Seq<char> },
    ToolExecutionFailed { tool: Tool },
    ToolTimeout { tool: Tool },
    TerminationFailed { pid: u32, detail: Seq<char> },
}

impl View for PortError {
    type V = ErrorView;

    open spec fn view(&self) -> ErrorView {
        match self {
            PortError::ToolUnavailable { tool, detail } => ErrorView::ToolUnavailable {
                tool: *tool,
                detail: detail@,
            },
            PortError::ToolExecutionFailed { tool } => ErrorView::ToolExecutionFailed { tool: *tool },
            PortError::ToolTimeout { tool } => ErrorView::ToolTimeout { tool: *tool },
            PortError::TerminationFailed { pid, detail } => ErrorView::TerminationFailed {
                pid: *pid,
                detail: detail@,
            },
        }
    }
}

/// The program behind a tool.
pub open spec fn program_name(tool: Tool) -> Seq<char> {
    match tool {
        Tool::SocketLister => "lsof"@,
        Tool::ProcessStatus => "ps"@,
        Tool::Terminator => "kill"@,
    }
}

/// The program behind a tool.
pub fn program_of(tool: Tool) -> (name: &'static str)
    ensures
        name@ == program_name(tool),
{
    match tool {
        Tool::SocketLister => "lsof",
        Tool::ProcessStatus => "ps",
        Tool::Terminator => "kill",
    }
}

/// The command that lists the TCP sockets in the listening state, and no
/// others, with numeric ports and addresses.
pub fn lister_command() -> (c: ToolCommand)
    ensures
        c.program@ == "lsof"@,
        texts(c.args@) == seq!["-i"@, "-P"@, "-n"@, "-sTCP:LISTEN"@],
{
    let mut args: Vec<String> = Vec::new();
    args.push(String::from_str("-i"));
    args.push(String::from_str("-P"));
    args.push(String::from_str("-n"));
    args.push(String::from_str("-sTCP:LISTEN"));
    assert(texts(args@) =~= seq!["-i"@, "-P"@, "-n"@, "-sTCP:LISTEN"@]);
    ToolCommand { program: String::from_str("lsof"), args }
}

/// The command that reports user, CPU share, memory share and full command
/// line of the process `pid`, in that order and without a header.
pub fn status_command(pid: u32) -> (c: ToolCommand)
    ensures
        c.program@ == "ps"@,
        texts(c.args@) == seq!["-p"@, decimal(pid as nat), "-o"@, "user=,%cpu=,%mem=,command="@],
{
    let mut args: Vec<String> = Vec::new();
    args.push(String::from_str("-p"));
    args.push(decimal_text(pid));
    args.push(String::from_str("-o"));
    args.push(String::from_str("user=,%cpu=,%mem=,command="));
    assert(texts(args@) =~= seq![
        "-p"@,
        decimal(pid as nat),
        "-o"@,
        "user=,%cpu=,%mem=,command="@,
    ]);
    ToolCommand { program: String::from_str("ps"), args }
}

/// The command that ends the process `pid` at once, with the signal that a
/// process cannot catch.
pub fn terminate_command(pid: u32) -> (c: ToolCommand)
    ensures
        c.program@ == "kill"@,
        texts(c.args@) == seq!["-9"@, decimal(pid as nat)],
{
    let mut args: Vec<String> = Vec::new();
    args.push(String::from_str("-9"));
    args.push(decimal_text(pid));
    assert(texts(args@) =~= seq!["-9"@, decimal(pid as nat)]);
    ToolCommand { program: String::from_str("kill"), args }
}

/// The one-line rendering of an error.
pub open spec fn error_message(e: ErrorView) -> Seq<char> {
    match e {
        ErrorView::ToolUnavailable { tool, detail } => if tool == Tool::Terminator {
            "Failed to kill process: "@ + detail
        } else {
            "Failed to execute "@ + program_name(tool) + ": "@ + detail
        },
        ErrorView::ToolExecutionFailed { tool } => program_name(tool) + " command failed"@,
        ErrorView::ToolTimeout { tool } => program_name(tool) + " command timed out"@,
        ErrorView::TerminationFailed { pid, detail } => "Failed to kill process "@ + decimal(
            pid as nat,
        ) + ": "@ + detail,
    }
}

impl PortError {
    /// The one-line rendering of the error.
    pub fn message(&self) -> (m: String)
        ensures
            m@ == error_message(self@),
    {
        let mut m = String::new();
        match self {
            PortError::ToolUnavailable { tool, detail } => {
                match tool {
                    Tool::Terminator => {
                        m.append("Failed to kill process: ");
                    },
                    _ => {
                        m.append("Failed to execute ");
                        m.append(program_of(*tool));
                        m.append(": ");
                    },
                }
                m.append(detail.as_str());
            },
            PortError::ToolExecutionFailed { tool } => {
                m.append(program_of(*tool));
                m.append(" command failed");
            },
            PortError::ToolTimeout { tool } => {
                m.append(program_of(*tool));
                m.append(" command timed out");
            },
            PortError::TerminationFailed { pid, detail } => {
                m.append("Failed to kill process ");
                push_decimal(&mut m, *pid);
                m.append(": ");
                m.append(detail.as_str());
            },
        }
        assert(m@ =~= error_message(self@));
        m
    }
}

/// The listing that a run of the socket lister gives: its output where it
/// ran with success, else the error that ends the report.
pub open spec fn listing_text(run: ToolRunView) -> Result<Seq<char>, ErrorView> {
    match run {
        ToolRunView::Unavailable(detail) => Err(
            ErrorView::ToolUnavailable { tool: Tool::SocketLister, detail },
        ),
        ToolRunView::TimedOut => Err(ErrorView::ToolTimeout { tool: Tool::SocketLister }),
        ToolRunView::Completed { success, stdout, stderr } => if success {
            Ok(stdout)
        } else {
            Err(ErrorView::ToolExecutionFailed { tool: Tool::SocketLister })
        },
    }
}

/// The listing that a run of the socket lister gives, or why there is none.
pub fn socket_listing(run: &ToolRun) -> (r: Result<String, PortError>)
    ensures
        match r {
            Ok(text) => listing_text(run@) == Ok::<Seq<char>, ErrorView>(text@),
            Err(e) => listing_text(run@) == Err::<Seq<char>, ErrorView>(e@),
        },
{
    match run {
        ToolRun::Unavailable(detail) => Err(
            PortError::ToolUnavailable { tool: Tool::SocketLister, detail: detail.clone() },
        ),
        ToolRun::TimedOut => Err(PortError::ToolTimeout { tool: Tool::SocketLister }),
        ToolRun::Completed(out) => if out.success {
            Ok(out.stdout.clone())
        } else {
            Err(PortError::ToolExecutionFailed { tool: Tool::SocketLister })
        },
    }
}

/// The confirmation that the process `pid` was ended.
pub open spec fn kill_confirmation(pid: u32) -> Seq<char> {
    "Process "@ + decimal(pid as nat) + " killed successfully"@
}

/// What a run of the terminator on `pid` means: a confirmation that names
/// the process where the tool reported success; else the error, which for a
/// tool that reported failure carries the process and the tool's complaint
/// word for word.
pub open spec fn kill_outcome(pid: u32, run: ToolRunView) -> Result<Seq<char>, ErrorView> {
    match run {
        ToolRunView::Unavailable(detail) => Err(
            ErrorView::ToolUnavailable { tool: Tool::Terminator, detail },
        ),
        ToolRunView::TimedOut => Err(ErrorView::ToolTimeout { tool: Tool::Terminator }),
        ToolRunView::Completed { success, stdout, stderr } => if success {
            Ok(kill_confirmation(pid))
        } else {
            Err(ErrorView::TerminationFailed { pid, detail: stderr })
        },
    }
}

/// Judges a run of the terminator on the process `pid`.
pub fn kill_process(pid: u32, run: &ToolRun) -> (r: Result<String, PortError>)
    ensures
        match r {
            Ok(text) => kill_outcome(pid, run@) == Ok::<Seq<char>, ErrorView>(text@),
            Err(e) => kill_outcome(pid, run@) == Err::<Seq<char>, ErrorView>(e@),
        },
{
    match run {
        ToolRun::Unavailable(detail) => Err(
            PortError::ToolUnavailable { tool: Tool::Terminator, detail: detail.clone() },
        ),
        ToolRun::TimedOut => Err(PortError::ToolTimeout { tool: Tool::Terminator }),
        ToolRun::Completed(out) => if out.success {
            let mut m = String::new();
            m.append("Process ");
            push_decimal(&mut m, pid);
            m.append(" killed successfully");
            assert(m@ =~= kill_confirmation(pid));
            Ok(m)
        } else {
            Err(PortError::TerminationFailed { pid, detail: out.stderr.clone() })
        },
    }
}

} // verus!

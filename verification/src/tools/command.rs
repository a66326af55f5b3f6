//! `run_command`: which command a request stands for, how a running command
//! is brought to its end, and what is reported of it.
//!
//! Starting processes, waiting and killing are the caller's part. A
//! [`CommandRun`] is told what happens and says what to do next; how long to
//! wait for the next thing is bounded at every point.
use crate::config::Limits;
use crate::error::{ToolError, ToolResult};
use crate::permissions::Permissions;
use crate::text;
use crate::tools::CappedBytes;
use crate::workspace::{FullPath, Located, PathPresentation, Workspace, WorkspaceContext};
use crate::workspace_id::WorkspaceId;
use vstd::prelude::*;

verus! {

broadcast use vstd::string::group_string_axioms;

/// Arguments of `run_command`.
#[derive(Debug)]
pub struct RunCommandArgs {
    /// The program to run, found through the search path.
    pub program: Option<String>,
    /// Its arguments, passed on as they are.
    pub args: Option<Vec<String>>,
    /// Run `command` through the system shell instead.
    pub shell: bool,
    /// The command line for the shell.
    pub command: Option<String>,
    /// The working directory relative to the workspace root.
    pub cwd: Option<String>,
    /// The timeout in seconds.
    pub timeout_seconds: Option<u64>,
}

/// Arguments of `run_command` in registry mode.
#[derive(Debug)]
pub struct RegistryRunCommandArgs {
    /// The logical id of the workspace to run in.
    pub workspace: WorkspaceId,
    /// What to run.
    pub args: RunCommandArgs,
}

// ---------------------------------------------------------------------------
// The request
// ---------------------------------------------------------------------------

/// What is run.
#[derive(Debug)]
pub enum Invocation {
    /// A program with its arguments; no shell is involved.
    Program {
        /// The program.
        program: String,
        /// Its arguments.
        argv: Vec<String>,
    },
    /// A command line for the system shell.
    Shell {
        /// The command line.
        command_line: String,
    },
}

/// What an [`Invocation`] runs.
#[verifier::ext_equal]
pub enum InvocationView {
    /// A program with its arguments.
    Program(Seq<char>, Seq<Seq<char>>),
    /// A command line for the system shell.
    Shell(Seq<char>),
}

impl View for Invocation {
    type V = InvocationView;

    open spec fn view(&self) -> InvocationView {
        match self {
            Invocation::Program { program, argv } => InvocationView::Program(
                program@,
                text::text_views(argv@),
            ),
            Invocation::Shell { command_line } => InvocationView::Shell(command_line@),
        }
    }
}

/// A given text without white space around it, unless nothing is left.
pub open spec fn given_text(s: Option<String>) -> Option<Seq<char>> {
    match s {
        Some(s) => if text::trimmed(s@).len() > 0 {
            Some(text::trimmed(s@))
        } else {
            None
        },
        None => None,
    }
}

/// What a request runs, or why it is refused. The permission is asked before
/// anything else.
pub open spec fn chosen_invocation(permissions: Permissions, args: RunCommandArgs) -> Result<
    InvocationView,
    Seq<char>,
> {
    if !permissions.execute {
        Err(
            "Command execution is disabled. Start nian-workspace with --exec to run commands."@,
        )
    } else if args.shell {
        if !permissions.shell {
            Err(
                "Shell execution is disabled. Start nian-workspace with --write --exec --allow-shell to run shell commands."@,
            )
        } else {
            match given_text(args.command) {
                None => Err("shell=true requires a non-empty 'command' string."@),
                Some(line) => if args.program is Some || args.args is Some {
                    Err(
                        "Pass either program/args (direct execution) or shell=true with command — not both."@,
                    )
                } else {
                    Ok(InvocationView::Shell(line))
                },
            }
        }
    } else {
        match given_text(args.program) {
            None => Err("'program' is required (or pass shell=true with 'command')."@),
            Some(program) => Ok(
                InvocationView::Program(
                    program,
                    match args.args {
                        Some(argv) => text::text_views(argv@),
                        None => Seq::empty(),
                    },
                ),
            ),
        }
    }
}

/// Whether an invocation runs what a request asks for: the shell its command
/// line and nothing else, or the program with every one of the arguments, in
/// order and as they are. Only white space around the program or the command
/// line is left off.
pub open spec fn runs_as_requested(invocation: Invocation, args: RunCommandArgs) -> bool {
    match invocation {
        Invocation::Shell { command_line } => {
            &&& args.shell && args.program is None && args.args is None
            &&& args.command matches Some(given) && text::is_core(given@, command_line@)
        },
        Invocation::Program { program, argv } => {
            &&& !args.shell
            &&& args.program matches Some(given) && text::is_core(given@, program@)
            &&& match args.args {
                Some(given) => argv@.len() == given@.len() && forall|i: int|
                    0 <= i < given@.len() ==> (#[trigger] argv@[i])@ == given@[i]@,
                None => argv@.len() == 0,
            }
        },
    }
}

/// Whether a request may run: programs are allowed, and a shell where it asks
/// for one; and it names a program, or else a command line and no program.
pub open spec fn may_run(permissions: Permissions, args: RunCommandArgs) -> bool {
    &&& permissions.execute
    &&& if args.shell {
        &&& permissions.shell
        &&& args.command matches Some(given) && !text::is_blank(given@)
        &&& args.program is None && args.args is None
    } else {
        args.program matches Some(given) && !text::is_blank(given@)
    }
}

fn trim_given(s: &Option<String>) -> (given: Option<String>)
    ensures
        match given {
            Some(g) => given_text(*s) == Some(g@),
            None => given_text(*s) is None,
        },
        match given {
            Some(g) => *s matches Some(raw) && text::is_core(raw@, g@) && !text::is_blank(raw@),
            None => *s matches Some(raw) ==> text::is_blank(raw@),
        },
{
    match s {
        Some(s) => {
            let trimmed: String = text::trim_text(s.as_str());
            proof {
                text::law_trimming_takes_off_white_space_only(s@);
                text::lemma_blank_trims_to_nothing(s@);
            }
            if trimmed.as_str().is_empty() {
                None
            } else {
                Some(trimmed)
            }
        },
        None => None,
    }
}

fn copy_texts(texts: &Vec<String>) -> (copy: Vec<String>)
    ensures
        text::text_views(copy@) == text::text_views(texts@),
        copy@.len() == texts@.len(),
        forall|i: int| 0 <= i < texts@.len() ==> (#[trigger] copy@[i])@ == texts@[i]@,
{
    let ghost views = text::text_views(texts@);
    let mut copy: Vec<String> = Vec::new();
    assert(text::text_views(copy@) =~= views.take(0));
    for i in 0..texts.len()
        invariant
            views == text::text_views(texts@),
            text::text_views(copy@) == views.take(i as int),
    {
        text::push_text(&mut copy, texts[i].as_str());
        assert(views.take(i + 1) =~= views.take(i as int).push(texts@[i as int]@));
    }
    assert(views.take(views.len() as int) =~= views);
    assert(copy@.len() == text::text_views(copy@).len());
    assert forall|i: int| 0 <= i < texts@.len() implies (#[trigger] copy@[i])@
        == texts@[i]@ by {
        assert(text::text_views(copy@)[i] == text::text_views(texts@)[i]);
    }
    copy
}

/// Decides what a request runs.
pub fn choose_invocation(permissions: &Permissions, args: &RunCommandArgs) -> (result: ToolResult<
    Invocation,
>)
    ensures
        match result {
            Ok(invocation) => chosen_invocation(*permissions, *args) == Ok::<
                InvocationView,
                Seq<char>,
            >(invocation@),
            Err(e) => chosen_invocation(*permissions, *args) == Err::<InvocationView, Seq<char>>(
                e.0@,
            ),
        },
        result matches Ok(invocation) ==> runs_as_requested(invocation, *args),
        result is Ok <==> may_run(*permissions, *args),
{
    if args.shell {
        if let Err(e) = permissions.require_shell() {
            return Err(e);
        }
        let command_line: String = match trim_given(&args.command) {
            Some(line) => line,
            None => {
                return Err(
                    ToolError::msg("shell=true requires a non-empty 'command' string."),
                );
            },
        };
        if args.program.is_some() || args.args.is_some() {
            return Err(
                ToolError::msg(
                    "Pass either program/args (direct execution) or shell=true with command — not both.",
                ),
            );
        }
        Ok(Invocation::Shell { command_line })
    } else {
        if let Err(e) = permissions.require_exec() {
            return Err(e);
        }
        let program: String = match trim_given(&args.program) {
            Some(program) => program,
            None => {
                return Err(
                    ToolError::msg("'program' is required (or pass shell=true with 'command')."),
                );
            },
        };
        let argv: Vec<String> = match &args.args {
            Some(argv) => copy_texts(argv),
            None => {
                let none: Vec<String> = Vec::new();
                assert(text::text_views(none@) =~= Seq::<Seq<char>>::empty());
                none
            },
        };
        Ok(Invocation::Program { program, argv })
    }
}

/// The timeout of a request, or why it is refused.
pub open spec fn accepted_timeout(requested: Option<u64>, limits: Limits) -> Result<
    u64,
    Seq<char>,
> {
    let secs = match requested {
        Some(secs) => secs,
        None => limits.default_command_timeout_secs,
    };
    if secs == 0 || secs > limits.max_command_timeout_secs {
        Err(
            "timeout_seconds must be between 1 and "@ + text::decimal(
                limits.max_command_timeout_secs as nat,
            ) + "."@,
        )
    } else {
        Ok(secs)
    }
}

/// Decides the timeout of a request.
pub fn accept_timeout(requested: Option<u64>, limits: &Limits) -> (result: ToolResult<u64>)
    ensures
        match result {
            Ok(secs) => accepted_timeout(requested, *limits) == Ok::<u64, Seq<char>>(secs),
            Err(e) => accepted_timeout(requested, *limits) == Err::<u64, Seq<char>>(e.0@),
        },
{
    let secs: u64 = match requested {
        Some(secs) => secs,
        None => limits.default_command_timeout_secs,
    };
    if secs == 0 || secs > limits.max_command_timeout_secs {
        return Err(
            ToolError(
                String::from_str("timeout_seconds must be between 1 and ").concat(
                    text::decimal_of(limits.max_command_timeout_secs).as_str(),
                ).concat("."),
            ),
        );
    }
    Ok(secs)
}

/// The program and arguments that run a command line through the system
/// shell.
pub fn shell_command(windows: bool, command_line: &str) -> (argv: Vec<String>)
    ensures
        text::text_views(argv@) == if windows {
            seq!["cmd"@, "/C"@, command_line@]
        } else {
            seq!["/bin/sh"@, "-c"@, command_line@]
        },
{
    let mut argv: Vec<String> = Vec::new();
    if windows {
        text::push_text(&mut argv, "cmd");
        text::push_text(&mut argv, "/C");
    } else {
        text::push_text(&mut argv, "/bin/sh");
        text::push_text(&mut argv, "-c");
    }
    text::push_text(&mut argv, command_line);
    assert(text::text_views(argv@) =~= if windows {
        seq!["cmd"@, "/C"@, command_line@]
    } else {
        seq!["/bin/sh"@, "-c"@, command_line@]
    });
    argv
}

/// A command that may be started.
#[derive(Debug)]
pub struct CommandPlan {
    /// What is run.
    pub invocation: Invocation,
    /// Where it is run.
    pub cwd: FullPath,
    /// How long it may run, in seconds.
    pub timeout_secs: u64,
    /// The cap on its standard output, in bytes.
    pub stdout_cap: usize,
    /// The cap on its standard error, in bytes.
    pub stderr_cap: usize,
}

/// Whether `found` is how an optional path text resolves.
pub open spec fn resolves_optional<L: Fn(&FullPath) -> Located>(
    resolver: Workspace,
    path: Option<String>,
    locate: L,
    found: ToolResult<FullPath>,
) -> bool {
    match path {
        None => resolver.resolves_by(None, locate, found),
        Some(p) => exists|given: &str|
            given@ == p@ && #[trigger] resolver.resolves_by(Some(given), locate, found),
    }
}

/// Decides what a request starts. The working directory is resolved first and
/// must be a directory; then the timeout is checked, then the permission,
/// then the command itself.
pub fn plan_command<L: Fn(&FullPath) -> Located, D: Fn(&FullPath) -> bool>(
    ctx: &WorkspaceContext,
    limits: &Limits,
    presentation: PathPresentation,
    args: &RunCommandArgs,
    locate: &L,
    is_directory: &D,
) -> (result: ToolResult<CommandPlan>)
    requires
        forall|at: &FullPath| call_requires(locate, (at,)),
        forall|at: &FullPath| call_requires(is_directory, (at,)),
    ensures
        exists|found: ToolResult<FullPath>| #[trigger]
            resolves_optional(ctx.resolver_view(), args.cwd, *locate, found) && match found {
                Err(refusal) => result matches Err(e) && e == refusal,
                Ok(cwd) => exists|directory: bool| #[trigger]
                    call_ensures(*is_directory, (&cwd,), directory) && if !directory {
                        result matches Err(e) && e.0@ == "Working directory '"@
                            + ctx.resolver_view().presented_view(cwd@, presentation)
                            + "' does not exist or is not a directory."@
                    } else {
                        match accepted_timeout(args.timeout_seconds, *limits) {
                            Err(refusal) => result matches Err(e) && e.0@ == refusal,
                            Ok(secs) => match chosen_invocation(ctx.permissions_view(), *args) {
                                Err(refusal) => result matches Err(e) && e.0@ == refusal,
                                Ok(chosen) => result matches Ok(plan) && plan.invocation@ == chosen
                                    && plan.cwd == cwd && plan.timeout_secs == secs
                                    && plan.stdout_cap == limits.max_command_stdout
                                    && plan.stderr_cap == limits.max_command_stderr,
                            },
                        }
                    },
            },
        result matches Ok(plan) ==> crate::workspace::inside(
            ctx.resolver_view().root_view(),
            plan.cwd@,
        ),
        result matches Ok(plan) ==> runs_as_requested(plan.invocation, *args) && may_run(
            ctx.permissions_view(),
            *args,
        ),
        result matches Ok(plan) ==> 1 <= plan.timeout_secs <= limits.max_command_timeout_secs
            && plan.timeout_secs == (match args.timeout_seconds {
            Some(secs) => secs,
            None => limits.default_command_timeout_secs,
        }),
{
    let found: ToolResult<FullPath> = match &args.cwd {
        Some(path) => ctx.resolver().resolve(Some(path.as_str()), locate),
        None => ctx.resolver().resolve(None, locate),
    };
    assert(resolves_optional(ctx.resolver_view(), args.cwd, *locate, found));
    let cwd: FullPath = match found {
        Ok(cwd) => cwd,
        Err(e) => {
            return Err(e);
        },
    };
    let directory: bool = is_directory(&cwd);
    assert(call_ensures(*is_directory, (&cwd,), directory));
    if !directory {
        let shown: String = ctx.resolver().display_relative_as(&cwd, presentation);
        return Err(
            ToolError(
                String::from_str("Working directory '").concat(shown.as_str()).concat(
                    "' does not exist or is not a directory.",
                ),
            ),
        );
    }
    let timeout_secs: u64 = match accept_timeout(args.timeout_seconds, limits) {
        Ok(secs) => secs,
        Err(e) => {
            return Err(e);
        },
    };
    let invocation: Invocation = match choose_invocation(ctx.permissions(), args) {
        Ok(invocation) => invocation,
        Err(e) => {
            return Err(e);
        },
    };
    Ok(
        CommandPlan {
            invocation,
            cwd,
            timeout_secs,
            stdout_cap: limits.max_command_stdout,
            stderr_cap: limits.max_command_stderr,
        },
    )
}

/// Nothing is started without permission: a request that is planned comes
/// from a workspace that allows programs, and a shell where it asks for one.
pub proof fn law_planned_commands_are_permitted(permissions: Permissions, args: RunCommandArgs)
    ensures
        chosen_invocation(permissions, args) is Ok ==> permissions.execute && (args.shell
            ==> permissions.shell),
{
}

/// A program is run with every argument of the request, in order and as it
/// is given.
pub proof fn law_arguments_are_passed_verbatim(
    permissions: Permissions,
    args: RunCommandArgs,
    given: Vec<String>,
    invocation: Invocation,
)
    requires
        !args.shell,
        args.args == Some(given),
        chosen_invocation(permissions, args) == Ok::<InvocationView, Seq<char>>(invocation@),
    ensures
        invocation matches Invocation::Program { program, argv } && argv@.len() == given@.len()
            && forall|i: int| 0 <= i < given@.len() ==> (#[trigger] argv@[i])@ == given@[i]@,
{
    let views = text::text_views(given@);
    if let Invocation::Program { program, argv } = invocation {
        assert(text::text_views(argv@) == views);
        assert(argv@.len() == text::text_views(argv@).len());
        assert forall|i: int| 0 <= i < given@.len() implies (#[trigger] argv@[i])@
            == given@[i]@ by {
            assert(text::text_views(argv@)[i] == views[i]);
        }
    }
}

/// The report of a command that could not be started.
pub fn start_failed(reason: &str) -> (error: ToolError)
    ensures
        error.0@ == "Failed to start command: "@ + reason@,
{
    ToolError(String::from_str("Failed to start command: ").concat(reason))
}

// ---------------------------------------------------------------------------
// The running command
// ---------------------------------------------------------------------------

/// How long output is collected after the command ended, in seconds.
pub const POST_EXIT_DRAIN_GRACE_SECS: u64 = 1;

/// How long a killed command is cleaned up, in seconds.
pub const POST_KILL_GRACE_SECS: u64 = 3;

/// How a process ended.
#[derive(Debug, Clone, Copy, PartialEq, Eq, Structural)]
pub struct ExitInfo {
    /// Its exit code; none where a signal ended it.
    pub code: Option<i32>,
    /// The signal that ended it.
    pub signal: Option<i32>,
}

/// An output stream.
#[derive(Debug, Clone, Copy, PartialEq, Eq, Structural)]
pub enum Stream {
    /// Standard output.
    Stdout,
    /// Standard error.
    Stderr,
}

/// What may happen while a command runs.
#[derive(Debug)]
pub enum CommandEvent {
    /// The command itself ended.
    Exited(ExitInfo),
    /// Waiting for the command failed, for the given reason.
    WaitFailed(String),
    /// The killed command was waited for, successfully or not.
    Reaped(bool),
    /// A stream came to its end: what is kept of it, or nothing where reading
    /// it failed.
    StreamEnded(Stream, Option<CappedBytes>),
    /// The time to wait for anything else is over.
    Lapsed,
}

/// What to do next.
#[derive(Debug, Clone, Copy, PartialEq, Eq, Structural)]
pub enum CommandAction {
    /// Wait for the next event.
    Wait,
    /// Kill the command with all its descendants and wait for it.
    TerminateTree,
    /// Kill what is left of the command's descendants.
    TerminateDescendants,
    /// Stop reading the streams that have not ended, and report.
    Finish,
}

/// Where a command stands.
#[derive(Debug, Clone, Copy, PartialEq, Eq, Structural)]
pub enum Phase {
    /// It runs.
    Running,
    /// It ended, and its output is collected.
    Draining,
    /// Its descendants were killed, and the rest of its output is collected.
    LastDraining,
    /// It ran too long and was killed.
    Killing,
    /// Nothing is waited for any more.
    Finished,
}

/// A running command.
#[derive(Debug)]
pub struct CommandRun {
    /// Where it stands.
    pub phase: Phase,
    /// How long it may run, in seconds.
    pub timeout_secs: u64,
    /// How it ended by itself.
    pub exit: Option<ExitInfo>,
    /// Why waiting for it failed.
    pub failure: Option<String>,
    /// Whether it could be waited for after it was killed.
    pub reaped: Option<bool>,
    /// Its standard output, once that came to its end.
    pub stdout: Option<Option<CappedBytes>>,
    /// Its standard error, once that came to its end.
    pub stderr: Option<Option<CappedBytes>>,
}

/// A run whose streams have both ended is over once the command is, too.
pub open spec fn settled_run(run: CommandRun) -> CommandRun {
    let streams = run.stdout is Some && run.stderr is Some;
    let over = match run.phase {
        Phase::Draining => streams,
        Phase::LastDraining => streams,
        Phase::Killing => streams && run.reaped is Some,
        _ => false,
    };
    if over {
        CommandRun { phase: Phase::Finished, ..run }
    } else {
        run
    }
}

/// A run after an event. What a stream gave is kept from then on, and an
/// event that does not belong to the phase changes nothing.
pub open spec fn stepped(run: CommandRun, event: CommandEvent) -> CommandRun {
    let next = match event {
        CommandEvent::Exited(info) => if run.phase == Phase::Running {
            CommandRun { phase: Phase::Draining, exit: Some(info), ..run }
        } else {
            run
        },
        CommandEvent::WaitFailed(reason) => if run.phase == Phase::Running {
            CommandRun { phase: Phase::Finished, failure: Some(reason), ..run }
        } else {
            run
        },
        CommandEvent::Reaped(ok) => if run.phase == Phase::Killing && run.reaped is None {
            CommandRun { reaped: Some(ok), ..run }
        } else {
            run
        },
        CommandEvent::StreamEnded(stream, kept) => if run.phase == Phase::Finished {
            run
        } else if stream == Stream::Stdout {
            if run.stdout is None {
                CommandRun { stdout: Some(kept), ..run }
            } else {
                run
            }
        } else if run.stderr is None {
            CommandRun { stderr: Some(kept), ..run }
        } else {
            run
        },
        CommandEvent::Lapsed => match run.phase {
            Phase::Running => CommandRun { phase: Phase::Killing, ..run },
            Phase::Draining => CommandRun { phase: Phase::LastDraining, ..run },
            _ => CommandRun { phase: Phase::Finished, ..run },
        },
    };
    settled_run(next)
}

/// What to do after an event led from one phase to another.
pub open spec fn action_after(before: Phase, after: Phase) -> CommandAction {
    if after == Phase::Finished {
        CommandAction::Finish
    } else if before == Phase::Running && after == Phase::Killing {
        CommandAction::TerminateTree
    } else if before == Phase::Draining && after == Phase::LastDraining {
        CommandAction::TerminateDescendants
    } else {
        CommandAction::Wait
    }
}

/// How long to wait for the next event at most, in seconds.
pub open spec fn window(run: CommandRun) -> int {
    match run.phase {
        Phase::Running => run.timeout_secs as int,
        Phase::Draining => POST_EXIT_DRAIN_GRACE_SECS as int,
        Phase::LastDraining => POST_EXIT_DRAIN_GRACE_SECS as int,
        Phase::Killing => POST_KILL_GRACE_SECS as int,
        Phase::Finished => 0,
    }
}

impl CommandRun {
    /// A command that was just started.
    pub fn start(timeout_secs: u64) -> (run: CommandRun)
        ensures
            run == (CommandRun {
                phase: Phase::Running,
                timeout_secs,
                exit: None,
                failure: None,
                reaped: None,
                stdout: None,
                stderr: None,
            }),
    {
        CommandRun {
            phase: Phase::Running,
            timeout_secs,
            exit: None,
            failure: None,
            reaped: None,
            stdout: None,
            stderr: None,
        }
    }

    /// How long to wait for the next event at most, in seconds. The time
    /// counts from the start of the phase.
    pub fn window_secs(&self) -> (secs: u64)
        ensures
            secs == window(*self),
    {
        match self.phase {
            Phase::Running => self.timeout_secs,
            Phase::Draining => POST_EXIT_DRAIN_GRACE_SECS,
            Phase::LastDraining => POST_EXIT_DRAIN_GRACE_SECS,
            Phase::Killing => POST_KILL_GRACE_SECS,
            Phase::Finished => 0,
        }
    }

    /// Takes in what happened and says what to do next.
    pub fn step(self, event: CommandEvent) -> (next: (CommandRun, CommandAction))
        ensures
            next.0 == stepped(self, event),
            next.1 == action_after(self.phase, next.0.phase),
    {
        let before: Phase = self.phase;
        let mut run: CommandRun = self;
        match event {
            CommandEvent::Exited(info) => {
                if run.phase == Phase::Running {
                    run.phase = Phase::Draining;
                    run.exit = Some(info);
                }
            },
            CommandEvent::WaitFailed(reason) => {
                if run.phase == Phase::Running {
                    run.phase = Phase::Finished;
                    run.failure = Some(reason);
                }
            },
            CommandEvent::Reaped(ok) => {
                if run.phase == Phase::Killing && run.reaped.is_none() {
                    run.reaped = Some(ok);
                }
            },
            CommandEvent::StreamEnded(stream, kept) => {
                if run.phase != Phase::Finished {
                    match stream {
                        Stream::Stdout => {
                            if run.stdout.is_none() {
                                run.stdout = Some(kept);
                            }
                        },
                        Stream::Stderr => {
                            if run.stderr.is_none() {
                                run.stderr = Some(kept);
                            }
                        },
                    }
                }
            },
            CommandEvent::Lapsed => {
                run.phase = match run.phase {
                    Phase::Running => Phase::Killing,
                    Phase::Draining => Phase::LastDraining,
                    _ => Phase::Finished,
                };
            },
        }
        let streams: bool = run.stdout.is_some() && run.stderr.is_some();
        let over: bool = match run.phase {
            Phase::Draining => streams,
            Phase::LastDraining => streams,
            Phase::Killing => streams && run.reaped.is_some(),
            _ => false,
        };
        if over {
            run.phase = Phase::Finished;
        }
        let action: CommandAction = if run.phase == Phase::Finished {
            CommandAction::Finish
        } else if before == Phase::Running && run.phase == Phase::Killing {
            CommandAction::TerminateTree
        } else if before == Phase::Draining && run.phase == Phase::LastDraining {
            CommandAction::TerminateDescendants
        } else {
            CommandAction::Wait
        };
        (run, action)
    }
}

// ---------------------------------------------------------------------------
// The report
// ---------------------------------------------------------------------------

/// What `run_command` returns.
#[derive(Debug)]
pub struct CommandReport {
    /// The exit code; minus one where a signal ended the command, and nothing
    /// where it ran too long.
    pub exit_code: Option<i64>,
    /// The standard output as text.
    pub stdout: String,
    /// The standard error as text.
    pub stderr: String,
    /// Whether something of the output is missing.
    pub truncated: bool,
    /// How long it took, in milliseconds.
    pub duration_ms: u64,
    /// Whether it ran too long.
    pub timed_out: bool,
    /// Whether the standard output is not valid UTF-8; told of a command that
    /// ended by itself.
    pub lossy_decoding: Option<bool>,
    /// The signal that ended the command.
    pub signal: Option<String>,
    /// A remark.
    pub message: Option<String>,
}

/// The bytes that are kept of a stream; none where it did not come to its
/// end or could not be read.
pub open spec fn kept_bytes(stream: Option<Option<CappedBytes>>) -> Seq<u8> {
    match stream {
        Some(Some(capped)) => capped.bytes@,
        _ => Seq::empty(),
    }
}

/// Whether a stream was read to its end.
pub open spec fn read_fully(stream: Option<Option<CappedBytes>>) -> bool {
    stream matches Some(Some(_))
}

/// Whether something of a stream is missing.
pub open spec fn cut_short(stream: Option<Option<CappedBytes>>) -> bool {
    match stream {
        Some(Some(capped)) => capped.truncated,
        _ => true,
    }
}

/// The remark on a command that ran too long.
pub open spec fn timeout_text(timeout_secs: u64, cleaned_up: bool) -> Seq<char> {
    "Command exceeded the "@ + text::decimal(timeout_secs as nat)
        + " second timeout and was terminated"@ + if cleaned_up {
        Seq::empty()
    } else {
        "; some post-kill cleanup did not finish within its grace period"@
    } + "."@
}

/// Whether a report tells what came of a run.
pub open spec fn reports(report: CommandReport, run: CommandRun, elapsed_ms: u128) -> bool {
    let complete = read_fully(run.stdout) && read_fully(run.stderr);
    &&& report.stdout@ == text::decoded_text(kept_bytes(run.stdout))
    &&& report.stderr@ == text::decoded_text(kept_bytes(run.stderr))
    &&& report.truncated == (cut_short(run.stdout) || cut_short(run.stderr))
    &&& report.duration_ms == if elapsed_ms > u64::MAX {
        u64::MAX as int
    } else {
        elapsed_ms as int
    }
    &&& match run.exit {
        Some(info) => {
            &&& !report.timed_out
            &&& report.exit_code == Some(
                match info.code {
                    Some(code) => code as i64,
                    None => -1i64,
                },
            )
            &&& report.lossy_decoding == Some(!vstd::utf8::valid_utf8(kept_bytes(run.stdout)))
            &&& match info.signal {
                Some(signal) => report.signal matches Some(s) && s@ == "SIG"@
                    + text::signed_decimal(signal as int),
                None => report.signal is None,
            }
            &&& if complete {
                report.message is None
            } else {
                report.message matches Some(s) && s@
                    == "Command exited, but output collection was incomplete because descendant processes kept pipe handles open."@
            }
        },
        None => {
            &&& report.timed_out
            &&& report.exit_code is None
            &&& report.lossy_decoding is None
            &&& report.signal is None
            &&& report.message matches Some(s) && s@ == timeout_text(
                run.timeout_secs,
                complete && run.reaped == Some(true),
            )
        },
    }
}

/// Takes what is kept of a stream: the bytes, whether some are missing, and
/// whether it was read to its end.
fn reader_outcome(stream: Option<Option<CappedBytes>>) -> (outcome: (Vec<u8>, bool, bool))
    ensures
        outcome.0@ == kept_bytes(stream),
        outcome.1 == cut_short(stream),
        outcome.2 == read_fully(stream),
{
    match stream {
        Some(Some(capped)) => (capped.bytes, capped.truncated, true),
        _ => (Vec::new(), true, false),
    }
}

impl CommandRun {
    /// Reports a finished run.
    pub fn report(self, elapsed_ms: u128) -> (result: ToolResult<CommandReport>)
        requires
            self.phase == Phase::Finished,
        ensures
            match result {
                Ok(report) => self.failure is None && reports(report, self, elapsed_ms),
                Err(e) => self.failure matches Some(reason) && e.0@ == "Command I/O failed: "@
                    + reason@,
            },
    {
        if let Some(reason) = &self.failure {
            return Err(
                ToolError(String::from_str("Command I/O failed: ").concat(reason.as_str())),
            );
        }
        let (out_bytes, out_cut, out_full) = reader_outcome(self.stdout);
        let (err_bytes, err_cut, err_full) = reader_outcome(self.stderr);
        let (stdout, lossy) = text::decode_lossy(out_bytes.as_slice());
        let (stderr, _) = text::decode_lossy(err_bytes.as_slice());
        let duration_ms: u64 = if elapsed_ms > 0xffff_ffff_ffff_ffff {
            0xffff_ffff_ffff_ffff
        } else {
            elapsed_ms as u64
        };
        let truncated: bool = out_cut || err_cut;
        match self.exit {
            Some(info) => {
                let exit_code: i64 = match info.code {
                    Some(code) => code as i64,
                    None => -1,
                };
                let signal: Option<String> = match info.signal {
                    Some(signal) => Some(
                        String::from_str("SIG").concat(
                            text::signed_decimal_of(signal).as_str(),
                        ),
                    ),
                    None => None,
                };
                let message: Option<String> = if out_full && err_full {
                    None
                } else {
                    Some(
                        String::from_str(
                            "Command exited, but output collection was incomplete because descendant processes kept pipe handles open.",
                        ),
                    )
                };
                Ok(
                    CommandReport {
                        exit_code: Some(exit_code),
                        stdout,
                        stderr,
                        truncated,
                        duration_ms,
                        timed_out: false,
                        lossy_decoding: Some(lossy),
                        signal,
                        message,
                    },
                )
            },
            None => {
                let reaped: bool = match self.reaped {
                    Some(ok) => ok,
                    None => false,
                };
                let mut message: String = String::from_str("Command exceeded the ").concat(
                    text::decimal_of(self.timeout_secs).as_str(),
                ).concat(" second timeout and was terminated");
                if !(reaped && out_full && err_full) {
                    message.append(
                        "; some post-kill cleanup did not finish within its grace period",
                    );
                }
                message.append(".");
                assert(message@ =~= timeout_text(
                    self.timeout_secs,
                    out_full && err_full && self.reaped == Some(true),
                ));
                Ok(
                    CommandReport {
                        exit_code: None,
                        stdout,
                        stderr,
                        truncated,
                        duration_ms,
                        timed_out: true,
                        lossy_decoding: None,
                        signal: None,
                        message: Some(message),
                    },
                )
            },
        }
    }
}

// ---------------------------------------------------------------------------
// Laws
// ---------------------------------------------------------------------------

/// What a stream gave before its time was over is never lost: no later event
/// changes it.
pub proof fn law_collected_output_survives(run: CommandRun, event: CommandEvent)
    ensures
        run.stdout is Some ==> stepped(run, event).stdout == run.stdout,
        run.stderr is Some ==> stepped(run, event).stderr == run.stderr,
{
}

/// A command that ended by itself is never reported as having run too long,
/// however long its descendants hold its streams open.
pub proof fn law_exit_is_no_timeout(run: CommandRun, event: CommandEvent)
    requires
        run.exit is Some,
        run.phase != Phase::Running,
    ensures
        stepped(run, event).exit == run.exit,
        stepped(run, event).phase != Phase::Running,
        stepped(run, event).phase == Phase::Killing ==> run.phase == Phase::Killing,
{
}

/// The longest time until a run is over, in seconds.
pub open spec fn time_left(run: CommandRun) -> int {
    match run.phase {
        Phase::Running => run.timeout_secs + POST_KILL_GRACE_SECS,
        Phase::Draining => POST_EXIT_DRAIN_GRACE_SECS + POST_EXIT_DRAIN_GRACE_SECS,
        Phase::LastDraining => POST_EXIT_DRAIN_GRACE_SECS as int,
        Phase::Killing => POST_KILL_GRACE_SECS as int,
        Phase::Finished => 0,
    }
}

/// Every run is over in time: no event makes the remaining time longer, and
/// each lapse uses up the window that lapsed. So a command is reported at
/// most its timeout and a fixed grace after it was started.
pub proof fn law_runs_end_in_time(run: CommandRun, event: CommandEvent)
    ensures
        time_left(stepped(run, event)) <= time_left(run),
        event is Lapsed ==> time_left(stepped(run, event)) + window(run) <= time_left(run),
        time_left(run) == 0 <==> run.phase == Phase::Finished,
{
}

/// What a stream gives is kept as long as the run is not over, whichever
/// stream it is and whatever phase the run is in.
pub proof fn law_streams_are_kept(run: CommandRun, kept: Option<CappedBytes>)
    requires
        run.phase != Phase::Finished,
    ensures
        run.stdout is None ==> stepped(run, CommandEvent::StreamEnded(Stream::Stdout, kept)).stdout
            == Some(kept),
        run.stderr is None ==> stepped(run, CommandEvent::StreamEnded(Stream::Stderr, kept)).stderr
            == Some(kept),
        stepped(run, CommandEvent::StreamEnded(Stream::Stdout, kept)).stderr == run.stderr,
        stepped(run, CommandEvent::StreamEnded(Stream::Stderr, kept)).stdout == run.stdout,
{
}

/// A running command goes on until it ends, waiting for it fails or its time
/// lapses; output alone never ends it.
pub proof fn law_only_exit_or_lapse_ends_running(run: CommandRun, event: CommandEvent)
    requires
        run.phase == Phase::Running,
    ensures
        stepped(run, event).phase == Phase::Running <==> event is StreamEnded || event is Reaped,
        event matches CommandEvent::Exited(info) ==> stepped(run, event).exit == Some(info),
        !(event is Exited) ==> stepped(run, event).exit == run.exit,
        event is Lapsed ==> action_after(run.phase, stepped(run, event).phase)
            == CommandAction::TerminateTree || (run.stdout is Some && run.stderr is Some
            && run.reaped is Some),
        stepped(run, event).timeout_secs == run.timeout_secs,
{
}

/// The output of a command that ended is waited for: the run is over only once
/// both streams ended or the time for them lapsed, and at the first lapse what
/// holds them open is killed first.
pub proof fn law_output_is_waited_for(run: CommandRun, event: CommandEvent)
    requires
        run.phase == Phase::Draining || run.phase == Phase::LastDraining,
        run.stdout is None || run.stderr is None,
    ensures
        !(event is Lapsed) ==> (stepped(run, event).phase == Phase::Finished <==> stepped(
            run,
            event,
        ).stdout is Some && stepped(run, event).stderr is Some),
        event is Lapsed && run.phase == Phase::Draining ==> action_after(
            run.phase,
            stepped(run, event).phase,
        ) == CommandAction::TerminateDescendants,
        event is Lapsed && run.phase == Phase::LastDraining ==> stepped(run, event).phase
            == Phase::Finished,
{
}

/// A finished run stays as it is.
pub proof fn law_finished_runs_stay(run: CommandRun, event: CommandEvent)
    requires
        run.phase == Phase::Finished,
    ensures
        stepped(run, event) == run,
{
}

/// The windows are those that are promised: the requested timeout while the
/// command runs, one second for its output, and three to clean up.
pub proof fn law_windows_are_as_promised(run: CommandRun)
    ensures
        run.phase == Phase::Running ==> window(run) == run.timeout_secs,
        run.phase == Phase::Draining || run.phase == Phase::LastDraining ==> window(run) == 1,
        run.phase == Phase::Killing ==> window(run) == 3,
{
}

/// A report tells the output that was collected and how the command ended: its
/// own exit code, or that it ran too long, never both.
pub proof fn law_reports_tell_what_happened(
    report: CommandReport,
    run: CommandRun,
    elapsed_ms: u128,
)
    requires
        reports(report, run, elapsed_ms),
    ensures
        run.stdout matches Some(Some(out)) ==> report.stdout@ == text::decoded_text(out.bytes@),
        run.stderr matches Some(Some(err)) ==> report.stderr@ == text::decoded_text(err.bytes@),
        run.stdout matches Some(Some(out)) ==> run.stderr matches Some(Some(err)) ==> (
        report.truncated <==> out.truncated || err.truncated),
        !(run.stdout matches Some(Some(_))) || !(run.stderr matches Some(Some(_)))
            ==> report.truncated && report.message is Some,
        report.timed_out <==> run.exit is None,
        run.exit matches Some(info) ==> info.code matches Some(code) ==> report.exit_code == Some(
            code as i64,
        ),
        run.exit is None ==> report.exit_code is None && report.message is Some,
        elapsed_ms <= u64::MAX ==> report.duration_ms == elapsed_ms,
        run.exit matches Some(info) ==> info.signal matches Some(n) ==> n >= 0
            ==> (report.signal matches Some(s) && s@ == "SIG"@ + text::decimal(n as nat)),
{
}

/// A timeout is accepted just where it lies between one second and the largest
/// one, and then it is the requested one, or the default where none is.
pub proof fn law_timeouts_are_taken_as_asked(requested: Option<u64>, limits: Limits)
    ensures
        requested matches Some(secs) ==> (accepted_timeout(requested, limits) is Ok <==> 1 <= secs
            <= limits.max_command_timeout_secs),
        requested matches Some(secs) ==> (accepted_timeout(requested, limits) matches Ok(taken)
            ==> taken == secs),
        requested is None ==> (accepted_timeout(requested, limits) matches Ok(taken) ==> taken
            == limits.default_command_timeout_secs),
        requested is None && 1 <= limits.default_command_timeout_secs
            <= limits.max_command_timeout_secs ==> accepted_timeout(requested, limits) is Ok,
{
}

/// A killed command is waited for: the run is over only once it was, and both
/// streams ended, or the time for that lapsed. Why waiting failed is kept.
pub proof fn law_killed_commands_are_waited_for(run: CommandRun, event: CommandEvent)
    ensures
        run.phase == Phase::Killing && !(event is Lapsed) ==> (stepped(run, event).phase
            == Phase::Finished <==> stepped(run, event).stdout is Some && stepped(
            run,
            event,
        ).stderr is Some && stepped(run, event).reaped is Some),
        run.phase == Phase::Killing && event is Lapsed ==> stepped(run, event).phase
            == Phase::Finished,
        run.phase == Phase::Killing && run.reaped is None ==> (event matches CommandEvent::Reaped(
            ok,
        ) ==> stepped(run, event).reaped == Some(ok)),
        run.phase == Phase::Running ==> (event matches CommandEvent::WaitFailed(reason) ==> stepped(
            run,
            event,
        ).failure == Some(reason) && stepped(run, event).phase == Phase::Finished),
        !(event is WaitFailed) ==> stepped(run, event).failure == run.failure,
        run.reaped is Some ==> stepped(run, event).reaped == run.reaped,
        run.exit is Some && run.phase != Phase::Running ==> stepped(run, event).exit == run.exit,
{
}

/// Every action belongs to its step: a command is killed with all that it
/// started just where it runs too long, what it left behind just where its
/// output does not end, and a run that is over is finished.
pub proof fn law_actions_belong_to_their_steps(before: Phase, after: Phase)
    ensures
        action_after(before, after) == CommandAction::Finish <==> after == Phase::Finished,
        action_after(before, after) == CommandAction::TerminateTree <==> before == Phase::Running
            && after == Phase::Killing,
        action_after(before, after) == CommandAction::TerminateDescendants <==> before
            == Phase::Draining && after == Phase::LastDraining,
{
}

/// A report tells a signal by its number and with it the exit code minus one;
/// of output that is not valid text it says so; it remarks on output that is
/// missing, on a timeout, and on nothing else.
pub proof fn law_reports_remark_on_what_is_missing(
    report: CommandReport,
    run: CommandRun,
    elapsed_ms: u128,
)
    requires
        reports(report, run, elapsed_ms),
    ensures
        run.exit matches Some(info) ==> {
            &&& info.code is None ==> report.exit_code == Some(-1i64)
            &&& info.signal is None <==> report.signal is None
            &&& run.stdout matches Some(Some(out)) ==> report.lossy_decoding == Some(
                !vstd::utf8::valid_utf8(out.bytes@),
            )
            &&& report.message is None <==> (run.stdout matches Some(Some(_))) && (run.stderr
                matches Some(Some(_)))
        },
        run.exit is None ==> report.signal is None && report.lossy_decoding is None,
        elapsed_ms > u64::MAX ==> report.duration_ms == u64::MAX,
        !(run.stdout matches Some(Some(_))) ==> report.stdout@ == text::decoded_text(
            Seq::<u8>::empty(),
        ),
        !(run.stderr matches Some(Some(_))) ==> report.stderr@ == text::decoded_text(
            Seq::<u8>::empty(),
        ),
{
}

/// A path that is given is the one that is resolved, and the root where none
/// is.
pub proof fn law_given_paths_are_resolved<L: Fn(&FullPath) -> Located>(
    resolver: Workspace,
    path: Option<String>,
    locate: L,
    found: ToolResult<FullPath>,
)
    requires
        resolves_optional(resolver, path, locate, found),
    ensures
        path is None ==> resolver.resolves_by(None, locate, found),
        path matches Some(p) ==> exists|given: &str|
            given@ == p@ && #[trigger] resolver.resolves_by(Some(given), locate, found),
{
}

/// The remark on a timeout tells how long the command was given, and whether
/// all of it is known to be gone.
pub proof fn law_timeouts_are_told(timeout_secs: u64)
    ensures
        text::occurs(timeout_text(timeout_secs, true), text::decimal(timeout_secs as nat)),
        text::occurs(timeout_text(timeout_secs, false), text::decimal(timeout_secs as nat)),
        text::occurs(
            timeout_text(timeout_secs, false),
            "some post-kill cleanup did not finish within its grace period"@,
        ),
        timeout_text(timeout_secs, true) == "Command exceeded the "@ + text::decimal(
            timeout_secs as nat,
        ) + " second timeout and was terminated."@,
{
    reveal_strlit(" second timeout and was terminated");
    reveal_strlit(" second timeout and was terminated.");
    reveal_strlit(".");
    reveal_strlit("; some post-kill cleanup did not finish within its grace period");
    reveal_strlit("some post-kill cleanup did not finish within its grace period");
    let head = "Command exceeded the "@;
    let number = text::decimal(timeout_secs as nat);
    let middle = " second timeout and was terminated"@;
    let note = "; some post-kill cleanup did not finish within its grace period"@;
    let words = "some post-kill cleanup did not finish within its grace period"@;
    let clean = timeout_text(timeout_secs, true);
    let unclean = timeout_text(timeout_secs, false);
    assert(clean =~= head + number + (middle + "."@));
    assert(middle + "."@ =~= " second timeout and was terminated."@);
    text::law_occurrences_are_found_anywhere(head, number, middle + "."@, clean, 0);
    assert(unclean =~= head + number + (middle + note + "."@));
    text::law_occurrences_are_found_anywhere(head, number, middle + note + "."@, unclean, 0);
    assert(note =~= "; "@ + words) by {
        reveal_strlit("; ");
    }
    assert(unclean =~= (head + number + middle + "; "@) + words + "."@);
    text::law_occurrences_are_found_anywhere(
        head + number + middle + "; "@,
        words,
        "."@,
        unclean,
        0,
    );
}

} // verus!

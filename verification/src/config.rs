//! Bounds and the shared runtime state.
use crate::cli;
use crate::cli::Cli;
use crate::permissions::{Permissions, SetupError};
use crate::registry::WorkspaceRegistry;
use crate::workspace::{FullPath, Workspace, WorkspaceContext};
use std::sync::Arc;
use vstd::prelude::*;

verus! {

broadcast use vstd::string::group_string_axioms;

/// The name reported to clients.
pub const SERVER_NAME: &'static str = "nian-workspace";

/// The version reported to clients.
pub const SERVER_VERSION: &'static str = "0.2.0";

/// Bounded defaults for every potentially large output.
#[derive(Debug, Clone, Copy)]
pub struct Limits {
    /// Maximum response of a file read, in bytes.
    pub max_read_bytes: usize,
    /// Lines returned by a file read when no range is requested.
    pub default_read_lines: u64,
    /// Lines returned by a file read when only the first line is given.
    pub read_span_when_start_only: u64,
    /// Maximum entries of a listing.
    pub max_list_entries: usize,
    /// Default number of search results.
    pub default_search_results: usize,
    /// Largest accepted number of search results.
    pub max_search_results_cap: usize,
    /// Maximum bytes of one matched line kept in a search result.
    pub max_search_line_bytes: usize,
    /// Maximum bytes of one source line held while reading a file.
    pub max_source_line_bytes: usize,
    /// Cap on a command's standard output, in bytes.
    pub max_command_stdout: usize,
    /// Cap on a command's standard error, in bytes.
    pub max_command_stderr: usize,
    /// Default command timeout in seconds.
    pub default_command_timeout_secs: u64,
    /// Largest accepted command timeout in seconds.
    pub max_command_timeout_secs: u64,
    /// Cap on git output, in bytes.
    pub max_git_output: usize,
}

/// The default bounds.
pub open spec fn default_limits() -> Limits {
    Limits {
        max_read_bytes: 262_144,
        default_read_lines: 2_000,
        read_span_when_start_only: 1_000,
        max_list_entries: 2_000,
        default_search_results: 100,
        max_search_results_cap: 1_000,
        max_search_line_bytes: 300,
        max_source_line_bytes: 1_048_576,
        max_command_stdout: 262_144,
        max_command_stderr: 262_144,
        default_command_timeout_secs: 120,
        max_command_timeout_secs: 3_600,
        max_git_output: 262_144,
    }
}

impl Default for Limits {
    fn default() -> (limits: Self)
        ensures
            limits == default_limits(),
    {
        Limits {
            max_read_bytes: 262_144,
            default_read_lines: 2_000,
            read_span_when_start_only: 1_000,
            max_list_entries: 2_000,
            default_search_results: 100,
            max_search_results_cap: 1_000,
            max_search_line_bytes: 300,
            max_source_line_bytes: 1_048_576,
            max_command_stdout: 262_144,
            max_command_stderr: 262_144,
            default_command_timeout_secs: 120,
            max_command_timeout_secs: 3_600,
            max_git_output: 262_144,
        }
    }
}

/// What is served, decided at startup: there is no current workspace that
/// could change, and no default one in a registry.
#[derive(Debug)]
pub enum RuntimeMode {
    /// One fixed workspace with the permissions of the startup flags.
    SingleWorkspace(Arc<WorkspaceContext>),
    /// An immutable registry of validated workspaces.
    WorkspaceRegistry(Arc<WorkspaceRegistry>),
}

/// The shared runtime state of all tools.
#[derive(Debug)]
pub struct AppState {
    mode: RuntimeMode,
    limits: Limits,
}

/// What the filesystem says of a single workspace's root.
#[derive(Debug)]
pub struct SingleRoot {
    /// The root as requested.
    pub shown: String,
    /// Whether it exists.
    pub exists: bool,
    /// Its canonical path, or why there is none.
    pub canonical: Result<FullPath, String>,
    /// Whether it is a directory.
    pub directory: bool,
    /// The platform's path separator.
    pub separator: u8,
}

/// What is wrong with a single workspace's root.
pub open spec fn single_root_fault(root: SingleRoot) -> Option<Seq<char>> {
    if !root.exists {
        Some("Workspace root '"@ + root.shown@ + "' does not exist."@)
    } else {
        match root.canonical {
            Err(reason) => Some(
                "Failed to resolve workspace root '"@ + root.shown@ + "': "@ + reason@,
            ),
            Ok(_) => if !root.directory {
                Some("Workspace root '"@ + root.shown@ + "' is not a directory."@)
            } else {
                None
            },
        }
    }
}

/// Opens a single workspace whose root passes the checks.
pub fn resolve_workspace_root(root: SingleRoot) -> (result: Result<Workspace, SetupError>)
    ensures
        match result {
            Ok(ws) => single_root_fault(root) is None && ws.root_view() == root.canonical->Ok_0@
                && ws.separator_view() == root.separator,
            Err(e) => single_root_fault(root) == Some(e.0@),
        },
{
    if !root.exists {
        return Err(
            SetupError(
                String::from_str("Workspace root '").concat(root.shown.as_str()).concat(
                    "' does not exist.",
                ),
            ),
        );
    }
    match root.canonical {
        Err(reason) => Err(
            SetupError(
                String::from_str("Failed to resolve workspace root '").concat(
                    root.shown.as_str(),
                ).concat("': ").concat(reason.as_str()),
            ),
        ),
        Ok(path) => {
            if !root.directory {
                return Err(
                    SetupError(
                        String::from_str("Workspace root '").concat(root.shown.as_str()).concat(
                            "' is not a directory.",
                        ),
                    ),
                );
            }
            Workspace::open(root.shown.as_str(), Ok(path), root.separator)
        },
    }
}

impl AppState {
    /// What is served.
    pub closed spec fn mode_view(self) -> RuntimeMode {
        self.mode
    }

    /// The bounds.
    pub closed spec fn limits_view(self) -> Limits {
        self.limits
    }

    /// The state of a single workspace.
    pub fn new(workspace: Workspace, permissions: Permissions, limits: Limits) -> (state: AppState)
        ensures
            state.mode_view() matches RuntimeMode::SingleWorkspace(ctx) && ctx.id_view() is None
                && ctx.resolver_view() == workspace && ctx.permissions_view() == permissions,
            state.limits_view() == limits,
    {
        AppState {
            mode: RuntimeMode::SingleWorkspace(
                Arc::new(WorkspaceContext::new(None, workspace, permissions)),
            ),
            limits,
        }
    }

    /// The state of a registry, with the default bounds.
    pub fn from_registry(registry: WorkspaceRegistry) -> (state: AppState)
        ensures
            state.mode_view() matches RuntimeMode::WorkspaceRegistry(held) && *held == registry,
            state.limits_view() == default_limits(),
    {
        AppState {
            mode: RuntimeMode::WorkspaceRegistry(Arc::new(registry)),
            limits: Limits::default(),
        }
    }

    /// What is served.
    pub fn mode(&self) -> (mode: &RuntimeMode)
        ensures
            *mode == self.mode_view(),
    {
        &self.mode
    }

    /// The bounds.
    pub fn limits(&self) -> (limits: &Limits)
        ensures
            *limits == self.limits_view(),
    {
        &self.limits
    }

    /// The single workspace.
    pub fn single_workspace(&self) -> (context: &WorkspaceContext)
        requires
            self.mode_view() is SingleWorkspace,
        ensures
            self.mode_view() matches RuntimeMode::SingleWorkspace(ctx) && *ctx == *context,
    {
        match &self.mode {
            RuntimeMode::SingleWorkspace(ctx) => ctx,
            RuntimeMode::WorkspaceRegistry(_) => vstd::pervasive::unreached(),
        }
    }

    /// The registry.
    pub fn registry(&self) -> (registry: &WorkspaceRegistry)
        requires
            self.mode_view() is WorkspaceRegistry,
        ensures
            self.mode_view() matches RuntimeMode::WorkspaceRegistry(held) && *held == *registry,
    {
        match &self.mode {
            RuntimeMode::WorkspaceRegistry(registry) => registry,
            RuntimeMode::SingleWorkspace(_) => vstd::pervasive::unreached(),
        }
    }

    /// The path resolver of the single workspace.
    pub fn workspace(&self) -> (workspace: &Workspace)
        requires
            self.mode_view() is SingleWorkspace,
        ensures
            self.mode_view() matches RuntimeMode::SingleWorkspace(ctx) && *workspace
                == ctx.resolver_view(),
    {
        self.single_workspace().resolver()
    }

    /// What the single workspace allows.
    pub fn permissions(&self) -> (permissions: &Permissions)
        requires
            self.mode_view() is SingleWorkspace,
        ensures
            self.mode_view() matches RuntimeMode::SingleWorkspace(ctx) && *permissions
                == ctx.permissions_view(),
    {
        self.single_workspace().permissions()
    }

    /// Builds the state from the command line. `load` reads and validates a
    /// registry configuration, and `look` tells what the filesystem says of
    /// the requested root.
    ///
    /// The options are checked first; permission flags count only for a
    /// single workspace, and are checked before its root is looked at.
    pub fn from_cli<
        L: Fn(&std::path::PathBuf) -> Result<WorkspaceRegistry, SetupError>,
        R: Fn(Option<&std::path::PathBuf>) -> SingleRoot,
    >(cli: &Cli, load: &L, look: &R) -> (result: Result<AppState, SetupError>)
        requires
            forall|path: &std::path::PathBuf| call_requires(load, (path,)),
            forall|path: Option<&std::path::PathBuf>| call_requires(look, (path,)),
        ensures
            match cli::options_fault(*cli) {
                Some(fault) => result matches Err(e) && e.0@ == fault,
                None => match cli.workspace_config {
                    Some(path) => exists|loaded: Result<WorkspaceRegistry, SetupError>| #[trigger]
                        call_ensures(load, (&path,), loaded) && match (loaded, result) {
                            (Ok(registry), Ok(state)) => state.mode_view()
                                matches RuntimeMode::WorkspaceRegistry(held) && *held == registry
                                && state.limits_view() == default_limits(),
                            (Err(fault), Err(e)) => e == fault,
                            _ => false,
                        },
                    None => if cli.allow_shell && !cli.execute {
                        result matches Err(e) && e.0@
                            == "--allow-shell requires --exec. Shell execution is a superset of program execution."@
                    } else {
                        exists|asked: Option<&std::path::PathBuf>, root: SingleRoot| #[trigger]
                            call_ensures(look, (asked,), root) && (asked is Some
                                <==> cli.workspace is Some) && (asked matches Some(path)
                                ==> cli.workspace == Some(*path)) && match single_root_fault(root) {
                                Some(fault) => result matches Err(e) && e.0@ == fault,
                                None => result matches Ok(state) && state.mode_view()
                                    matches RuntimeMode::SingleWorkspace(ctx) && ctx.id_view()
                                    is None && ctx.permissions_view() == (Permissions {
                                    read: true,
                                    write: cli.write,
                                    execute: cli.execute,
                                    shell: cli.allow_shell,
                                }) && ctx.resolver_view().root_view() == root.canonical->Ok_0@
                                    && ctx.resolver_view().separator_view() == root.separator
                                    && state.limits_view() == default_limits(),
                            }
                    },
                },
            },
    {
        if let Err(e) = cli.validate() {
            return Err(e);
        }
        if let Some(path) = &cli.workspace_config {
            let loaded: Result<WorkspaceRegistry, SetupError> = load(path);
            assert(call_ensures(load, (path,), loaded));
            return match loaded {
                Ok(registry) => Ok(AppState::from_registry(registry)),
                Err(e) => Err(e),
            };
        }
        let permissions: Permissions = match Permissions::from_flags(
            cli.write,
            cli.execute,
            cli.allow_shell,
        ) {
            Ok(permissions) => permissions,
            Err(e) => {
                return Err(e);
            },
        };
        let asked: Option<&std::path::PathBuf> = cli.workspace.as_ref();
        let root: SingleRoot = look(asked);
        assert(call_ensures(look, (asked,), root));
        match resolve_workspace_root(root) {
            Ok(workspace) => Ok(AppState::new(workspace, permissions, Limits::default())),
            Err(e) => Err(e),
        }
    }
}

/// A single workspace is opened exactly where its root exists, has a canonical
/// path, and is a directory.
pub proof fn law_single_roots_are_directories(root: SingleRoot)
    ensures
        single_root_fault(root) is None <==> root.exists && root.canonical is Ok && root.directory,
{
}

/// The default bounds are those that are documented: a quarter of a mebibyte
/// for what is read, printed or compared, a mebibyte for one line of a file,
/// two minutes for a command and an hour at most.
pub proof fn law_default_bounds()
    ensures
        default_limits().max_read_bytes == 256 * 1024,
        default_limits().max_command_stdout == 256 * 1024,
        default_limits().max_command_stderr == 256 * 1024,
        default_limits().max_git_output == 256 * 1024,
        default_limits().max_source_line_bytes == 1024 * 1024,
        default_limits().max_search_line_bytes == 300,
        default_limits().default_read_lines == 2000,
        default_limits().read_span_when_start_only == 1000,
        default_limits().max_list_entries == 2000,
        default_limits().default_search_results == 100,
        default_limits().max_search_results_cap == 1000,
        default_limits().default_command_timeout_secs == 2 * 60,
        default_limits().max_command_timeout_secs == 60 * 60,
{
}

} // verus!

//! Command-line options and the rules between them.
use crate::permissions::SetupError;
use vstd::prelude::*;

verus! {

broadcast use vstd::string::group_string_axioms;

/// `std::path::PathBuf`, carried through as it is.
#[verifier::external_type_specification]
#[verifier::external_body]
pub struct ExPathBuf(std::path::PathBuf);

/// How clients connect.
#[derive(Debug, Clone, Copy, PartialEq, Eq, Structural)]
pub enum TransportChoice {
    /// Standard input and output.
    Stdio,
    /// HTTP on a loopback address.
    Http,
}

/// The command-line options.
#[derive(Debug)]
pub struct Cli {
    /// The workspace root; the current directory where there is none.
    pub workspace: Option<std::path::PathBuf>,
    /// Allow modifying files.
    pub write: bool,
    /// Allow running programs.
    pub execute: bool,
    /// Allow commands through a system shell.
    pub allow_shell: bool,
    /// The workspace registry configuration.
    pub workspace_config: Option<std::path::PathBuf>,
    /// How clients connect.
    pub transport: TransportChoice,
    /// The HTTP bind host.
    pub host: String,
    /// The HTTP port.
    pub port: u16,
    /// The log level.
    pub log_level: Option<String>,
}

/// What is wrong with a combination of options. Without a registry nothing
/// is; a registry excludes a workspace root, and excludes the permission
/// flags, since permissions are then configured per workspace.
pub open spec fn options_fault(cli: Cli) -> Option<Seq<char>> {
    if cli.workspace_config is None {
        None
    } else if cli.workspace is Some {
        Some(
            "--workspace-config cannot be combined with a positional WORKSPACE. Use either a single workspace root or a workspace registry configuration, never both."@,
        )
    } else if cli.write {
        Some(
            "--write cannot be combined with --workspace-config. In registry mode, permissions are configured per workspace (write/exec/allow_shell) in the configuration file."@,
        )
    } else if cli.execute {
        Some(
            "--exec cannot be combined with --workspace-config. In registry mode, permissions are configured per workspace (write/exec/allow_shell) in the configuration file."@,
        )
    } else if cli.allow_shell {
        Some(
            "--allow-shell cannot be combined with --workspace-config. In registry mode, permissions are configured per workspace (write/exec/allow_shell) in the configuration file."@,
        )
    } else {
        None
    }
}

impl Cli {
    /// Checks the rules between options.
    pub fn validate(&self) -> (result: Result<(), SetupError>)
        ensures
            match result {
                Ok(_) => options_fault(*self) is None,
                Err(e) => options_fault(*self) == Some(e.0@),
            },
    {
        if self.workspace_config.is_none() {
            return Ok(());
        }
        if self.workspace.is_some() {
            return Err(
                SetupError::msg(
                    "--workspace-config cannot be combined with a positional WORKSPACE. Use either a single workspace root or a workspace registry configuration, never both.",
                ),
            );
        }
        if self.write {
            return Err(
                SetupError::msg(
                    "--write cannot be combined with --workspace-config. In registry mode, permissions are configured per workspace (write/exec/allow_shell) in the configuration file.",
                ),
            );
        }
        if self.execute {
            return Err(
                SetupError::msg(
                    "--exec cannot be combined with --workspace-config. In registry mode, permissions are configured per workspace (write/exec/allow_shell) in the configuration file.",
                ),
            );
        }
        if self.allow_shell {
            return Err(
                SetupError::msg(
                    "--allow-shell cannot be combined with --workspace-config. In registry mode, permissions are configured per workspace (write/exec/allow_shell) in the configuration file.",
                ),
            );
        }
        Ok(())
    }
}

/// Options are refused exactly where a registry configuration meets a
/// workspace root or a permission flag.
pub proof fn law_registry_excludes_root_and_flags(cli: Cli)
    ensures
        options_fault(cli) is Some <==> cli.workspace_config is Some && (cli.workspace is Some
            || cli.write || cli.execute || cli.allow_shell),
{
}

} // verus!

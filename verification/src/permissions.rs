//! What a workspace allows beyond reading.
use crate::error::ToolError;
use vstd::prelude::*;

verus! {

/// The conservative permission model.
///
/// Reading is always allowed; everything else is off by default and is turned
/// on explicitly at startup. Permissions are never promoted afterwards.
#[derive(Debug, Clone, Copy, PartialEq, Eq, Structural)]
pub struct Permissions {
    /// Reading files.
    pub read: bool,
    /// Modifying files.
    pub write: bool,
    /// Running programs.
    pub execute: bool,
    /// Running commands through a system shell.
    pub shell: bool,
}

/// A refusal to start: the text shown to the operator.
#[derive(Debug)]
pub struct SetupError(pub String);

impl SetupError {
    /// An error with the given text.
    pub fn msg(message: &str) -> (error: SetupError)
        ensures
            error.0@ == message@,
    {
        SetupError(String::from_str(message))
    }

    /// The text shown to the operator.
    pub fn message(&self) -> (text: String)
        ensures
            text@ == self.0@,
    {
        self.0.clone()
    }
}

impl Default for Permissions {
    fn default() -> (permissions: Self)
        ensures
            permissions == (Permissions { read: true, write: false, execute: false, shell: false }),
    {
        Permissions { read: true, write: false, execute: false, shell: false }
    }
}

impl Permissions {
    /// Reading is allowed, and a shell only where programs are.
    pub open spec fn coherent(self) -> bool {
        self.read && (self.shell ==> self.execute)
    }

    /// Permissions from startup flags. A shell without program execution is
    /// refused.
    pub fn from_flags(write: bool, execute: bool, allow_shell: bool) -> (result: Result<
        Permissions,
        SetupError,
    >)
        ensures
            match result {
                Ok(p) => !(allow_shell && !execute) && p == (Permissions {
                    read: true,
                    write,
                    execute,
                    shell: allow_shell,
                }) && p.coherent(),
                Err(e) => allow_shell && !execute && e.0@
                    == "--allow-shell requires --exec. Shell execution is a superset of program execution."@,
            },
    {
        if allow_shell && !execute {
            return Err(
                SetupError::msg(
                    "--allow-shell requires --exec. Shell execution is a superset of program execution.",
                ),
            );
        }
        Ok(Permissions { read: true, write, execute, shell: allow_shell })
    }

    /// Succeeds exactly where writing is allowed.
    pub fn require_write(&self) -> (result: Result<(), ToolError>)
        ensures
            match result {
                Ok(_) => self.write,
                Err(e) => !self.write && e.0@
                    == "Write permission is disabled. Start nian-workspace with --write to modify workspace files."@,
            },
    {
        if self.write {
            Ok(())
        } else {
            Err(
                ToolError::msg(
                    "Write permission is disabled. Start nian-workspace with --write to modify workspace files.",
                ),
            )
        }
    }

    /// Succeeds exactly where running programs is allowed.
    pub fn require_exec(&self) -> (result: Result<(), ToolError>)
        ensures
            match result {
                Ok(_) => self.execute,
                Err(e) => !self.execute && e.0@
                    == "Command execution is disabled. Start nian-workspace with --exec to run commands."@,
            },
    {
        if self.execute {
            Ok(())
        } else {
            Err(
                ToolError::msg(
                    "Command execution is disabled. Start nian-workspace with --exec to run commands.",
                ),
            )
        }
    }

    /// Succeeds exactly where both programs and a shell are allowed; the
    /// program permission is asked first.
    pub fn require_shell(&self) -> (result: Result<(), ToolError>)
        ensures
            match result {
                Ok(_) => self.execute && self.shell,
                Err(e) => if !self.execute {
                    e.0@
                        == "Command execution is disabled. Start nian-workspace with --exec to run commands."@
                } else {
                    !self.shell && e.0@
                        == "Shell execution is disabled. Start nian-workspace with --write --exec --allow-shell to run shell commands."@
                },
            },
    {
        self.require_exec()?;
        if self.shell {
            Ok(())
        } else {
            Err(
                ToolError::msg(
                    "Shell execution is disabled. Start nian-workspace with --write --exec --allow-shell to run shell commands.",
                ),
            )
        }
    }
}

} // verus!

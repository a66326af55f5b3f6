//! What the servers tell a client when it connects.
use vstd::prelude::*;

verus! {

broadcast use vstd::string::group_string_axioms;

/// What `shell=true` starts on a platform.
pub open spec fn shell_guidance(windows: bool) -> Seq<char> {
    if windows {
        "shell=true uses cmd.exe /C. Direct run_command execution resolves programs through PATH without a shell. PowerShell is not implied by shell=true; invoke pwsh or powershell.exe directly only when available."@
    } else {
        "shell=true uses /bin/sh -c. Direct run_command execution resolves programs through PATH without a shell."@
    }
}

/// The host and its shell.
pub open spec fn runtime_guidance(os: Seq<char>, arch: Seq<char>, windows: bool) -> Seq<char> {
    "Runtime host: "@ + os + "/"@ + arch + ". "@ + shell_guidance(windows)
}

/// Tells the host's system and architecture, the shell that `shell=true`
/// starts, and how programs are found. Nothing is probed.
pub fn runtime_environment_instructions(os: &str, arch: &str, windows: bool) -> (told: String)
    ensures
        told@ == runtime_guidance(os@, arch@, windows),
{
    let shell: &str = if windows {
        "shell=true uses cmd.exe /C. Direct run_command execution resolves programs through PATH without a shell. PowerShell is not implied by shell=true; invoke pwsh or powershell.exe directly only when available."
    } else {
        "shell=true uses /bin/sh -c. Direct run_command execution resolves programs through PATH without a shell."
    };
    String::from_str("Runtime host: ").concat(os).concat("/").concat(arch).concat(". ").concat(shell)
}

/// The instructions of the single-workspace server, which name the root.
pub fn single_instructions(root: &str, runtime: &str) -> (told: String)
    ensures
        told@ == "Workspace-scoped file/search/exec/git tools rooted at '"@ + root@
            + "'. Writes require --write; commands require --exec; shell syntax requires --allow-shell. "@
            + runtime@,
{
    String::from_str("Workspace-scoped file/search/exec/git tools rooted at '").concat(root).concat(
        "'. Writes require --write; commands require --exec; shell syntax requires --allow-shell. ",
    ).concat(runtime)
}

/// The instructions of the registry server, which name no root.
pub fn registry_instructions(runtime: &str) -> (told: String)
    ensures
        told@
            == "Registry mode over operator-configured workspaces: list_workspaces reports the workspace IDs, and every other tool requires a `workspace` argument selecting one of those IDs. Read tools (workspace_info, list_files, read_file, search, git_status, git_diff) are always available; apply_patch requires the selected workspace's write capability and run_command its exec capability (shell=true additionally requires the shell capability) as configured at startup. Paths are workspace-relative, server-generated metadata never exposes filesystem roots, and responses carry the selected workspace's logical ID as provenance. There is no default workspace. "@
            + runtime@,
{
    String::from_str(
        "Registry mode over operator-configured workspaces: list_workspaces reports the workspace IDs, and every other tool requires a `workspace` argument selecting one of those IDs. Read tools (workspace_info, list_files, read_file, search, git_status, git_diff) are always available; apply_patch requires the selected workspace's write capability and run_command its exec capability (shell=true additionally requires the shell capability) as configured at startup. Paths are workspace-relative, server-generated metadata never exposes filesystem roots, and responses carry the selected workspace's logical ID as provenance. There is no default workspace. ",
    ).concat(runtime)
}

/// The shell that is told of is the one that the platform has.
pub proof fn law_told_shell_is_the_platforms()
    ensures
        crate::text::begins_with(shell_guidance(true), "shell=true uses cmd.exe /C."@),
        crate::text::begins_with(shell_guidance(false), "shell=true uses /bin/sh -c."@),
{
    reveal_strlit("shell=true uses cmd.exe /C.");
    reveal_strlit("shell=true uses /bin/sh -c.");
    reveal_strlit(
        "shell=true uses cmd.exe /C. Direct run_command execution resolves programs through PATH without a shell. PowerShell is not implied by shell=true; invoke pwsh or powershell.exe directly only when available.",
    );
    reveal_strlit(
        "shell=true uses /bin/sh -c. Direct run_command execution resolves programs through PATH without a shell.",
    );
    assert(shell_guidance(true).subrange(0, 27) =~= "shell=true uses cmd.exe /C."@);
    assert(shell_guidance(false).subrange(0, 27) =~= "shell=true uses /bin/sh -c."@);
}

/// What is told of the host names its system and its architecture, and ends
/// with what is told of its shell.
pub proof fn law_told_host_is_the_host(os: Seq<char>, arch: Seq<char>, windows: bool)
    ensures
        crate::text::occurs(runtime_guidance(os, arch, windows), os + "/"@ + arch),
        runtime_guidance(os, arch, windows).skip(
            runtime_guidance(os, arch, windows).len() - shell_guidance(windows).len(),
        ) == shell_guidance(windows),
{
    let told = runtime_guidance(os, arch, windows);
    let shell = shell_guidance(windows);
    let host = os + "/"@ + arch;
    assert(told =~= "Runtime host: "@ + host + (". "@ + shell));
    crate::text::law_occurrences_are_found_anywhere(
        "Runtime host: "@,
        host,
        ". "@ + shell,
        told,
        0,
    );
    assert(told.skip(told.len() - shell.len()) =~= shell);
}

} // verus!

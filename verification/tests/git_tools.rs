//! Redaction of git's words, and the git tools.
use nian_workspace::config::{AppState, Limits};
use nian_workspace::error::{ToolError, ToolResult};
use nian_workspace::permissions::Permissions;
use nian_workspace::tools::git;
use nian_workspace::tools::git::{
    path_display_variants, GitDiff, GitDiffArgs, GitInvocation, GitOutput, GitStatus,
};
use nian_workspace::tools::workspace_info::{
    describe, read_branch, ReportedIdentity, WorkspaceIdentity,
};
use nian_workspace::workspace::{FullPath, Located, PathPresentation, Workspace};

fn redact_display_variants(text: &str, roots: &[&str], replacement: &str) -> String {
    let roots: Vec<String> = roots.iter().map(|root| root.to_string()).collect();
    git::redact_display_variants(text, &roots, replacement)
}

#[test]
fn redaction_treats_backslash_as_a_path_separator() {
    let redacted = redact_display_variants(
        r"fatal: cannot open 'C:\repo\alpha\file.txt'",
        &[r"C:\repo\alpha"],
        ".",
    );
    assert_eq!(redacted, r"fatal: cannot open '.\file.txt'");
}

#[test]
fn redaction_covers_the_forward_slash_git_spelling() {
    let redacted = redact_display_variants(
        r"fatal: cannot open 'C:/repo/alpha/file.txt'",
        &[r"C:\repo\alpha"],
        ".",
    );
    assert_eq!(redacted, r"fatal: cannot open './file.txt'");
}

#[test]
fn redaction_consumes_the_verbatim_prefix_form_before_its_stripped_form() {
    let redacted = redact_display_variants(
        r"fatal: bad object '\\?\C:\repo\alpha\file.txt'",
        &[r"\\?\C:\repo\alpha"],
        ".",
    );
    assert_eq!(redacted, r"fatal: bad object '.\file.txt'");
}

#[test]
fn redaction_never_rewrites_a_prefix_collision_sibling() {
    for sibling in [
        r"fatal: cannot open 'C:\repo\alpha-other\file.txt'",
        "fatal: cannot open 'C:/repo/alpha-other/file.txt'",
    ] {
        let redacted = redact_display_variants(sibling, &[r"C:\repo\alpha"], ".");
        assert_eq!(redacted, sibling, "prefix collision must not be rewritten");
    }
}

#[test]
fn redaction_unix_root_still_redacts() {
    let redacted = redact_display_variants(
        "fatal: cannot open '/home/user/project/file'",
        &["/home/user/project"],
        ".",
    );
    assert_eq!(redacted, "fatal: cannot open './file'");
}

#[test]
fn path_display_variants_are_deduplicated_and_cover_both_spellings() {
    let variants = path_display_variants(r"C:\repo\alpha");
    assert!(
        variants.contains(&r"C:\repo\alpha".to_string()),
        "{variants:?}"
    );
    assert!(
        variants.contains(&"C:/repo/alpha".to_string()),
        "{variants:?}"
    );
    let unique: std::collections::HashSet<&String> = variants.iter().collect();
    assert_eq!(unique.len(), variants.len(), "no duplicates: {variants:?}");

    let verbatim = path_display_variants(r"\\?\C:\repo\alpha");
    assert!(
        verbatim.contains(&r"C:\repo\alpha".to_string()),
        "{verbatim:?}"
    );
    assert!(
        verbatim.contains(&"C:/repo/alpha".to_string()),
        "{verbatim:?}"
    );

    let unix = path_display_variants("/home/user/project");
    assert!(unix.contains(&"/home/user/project".to_string()), "{unix:?}");
}


#[test]
fn path_display_variants_derive_ordinary_unc_spellings() {
    let variants = path_display_variants(r"\\?\UNC\server\share\alpha");
    for expected in [
        r"\\?\UNC\server\share\alpha",
        r"\\server\share\alpha",
        "//server/share/alpha",
    ] {
        assert!(
            variants.contains(&expected.to_string()),
            "missing '{expected}' in {variants:?}"
        );
    }
    let unique: std::collections::HashSet<&String> = variants.iter().collect();
    assert_eq!(unique.len(), variants.len(), "no duplicates: {variants:?}");

    let drive = path_display_variants(r"\\?\C:\repo\alpha");
    assert!(
        !drive
            .iter()
            .any(|v| v.starts_with(r"\\") && !v.starts_with(r"\\?\")),
        "drive path must not derive UNC spellings: {drive:?}"
    );

    assert!(
        drive.contains(&r"\\?\C:/repo/alpha".to_string()),
        "missing mixed verbatim twin in {drive:?}"
    );
}

#[test]
fn redaction_covers_the_ordinary_backslash_unc_spelling() {
    let redacted = redact_display_variants(
        r"fatal: cannot open '\\server\share\alpha\file.txt'",
        &[r"\\?\UNC\server\share\alpha"],
        ".",
    );
    assert_eq!(redacted, r"fatal: cannot open '.\file.txt'");
}

#[test]
fn redaction_covers_the_forward_slash_unc_git_spelling() {
    let redacted = redact_display_variants(
        "fatal: cannot open '//server/share/alpha/file.txt'",
        &[r"\\?\UNC\server\share\alpha"],
        ".",
    );
    assert_eq!(redacted, "fatal: cannot open './file.txt'");
}

#[test]
fn redaction_covers_the_verbatim_unc_form_itself() {
    let redacted = redact_display_variants(
        r"fatal: cannot open '\\?\UNC\server\share\alpha\file.txt'",
        &[r"\\?\UNC\server\share\alpha"],
        ".",
    );
    assert_eq!(redacted, r"fatal: cannot open '.\file.txt'");
}

#[test]
fn redaction_never_rewrites_a_unc_prefix_collision_sibling() {
    for sibling in [
        r"fatal: cannot open '\\server\share\alpha-other\file.txt'",
        "fatal: cannot open '//server/share/alpha-other/file.txt'",
    ] {
        let redacted = redact_display_variants(sibling, &[r"\\?\UNC\server\share\alpha"], ".");
        assert_eq!(
            redacted, sibling,
            "UNC prefix collision must not be rewritten"
        );
    }
}


#[test]
fn parent_root_redaction_consumes_the_verbatim_git_spelling() {
    let redacted = redact_display_variants(
        r"fatal: broken objects under '\\?\C:/repo/objects'",
        &[r"\\?\C:\repo", "C:/repo"],
        ".",
    );
    assert_eq!(redacted, r"fatal: broken objects under './objects'");

    let redacted = redact_display_variants(
        r"fatal: broken objects under 'C:\repo\objects'",
        &[r"\\?\C:\repo", "C:/repo"],
        ".",
    );
    assert_eq!(redacted, r"fatal: broken objects under '.\objects'");
}


// ---------------------------------------------------------------------------
// The tools
// ---------------------------------------------------------------------------

fn full(path: &str) -> FullPath {
    FullPath {
        prefix: Vec::new(),
        names: path
            .split('/')
            .filter(|name| !name.is_empty())
            .map(|name| name.as_bytes().to_vec())
            .collect(),
    }
}

fn single() -> AppState {
    let workspace = Workspace::open("/home/me/ws", Ok(full("/home/me/ws")), b'/').unwrap();
    AppState::new(workspace, Permissions::default(), Limits::default())
}

fn told(stdout: &str) -> ToolResult<GitOutput> {
    Ok(GitOutput {
        stdout: stdout.to_string(),
        stdout_truncated: false,
    })
}

fn status(run: &dyn Fn(&GitInvocation) -> ToolResult<GitOutput>) -> ToolResult<GitStatus> {
    let state = single();
    git::git_status_for_context(
        state.single_workspace(),
        state.limits(),
        PathPresentation::SingleCompatible,
        &|invocation: &GitInvocation| run(invocation),
        &|_: &str| None,
    )
}

fn diff(
    staged: bool,
    path: Option<&str>,
    run: &dyn Fn(&GitInvocation) -> ToolResult<GitOutput>,
) -> ToolResult<GitDiff> {
    let state = single();
    git::git_diff_for_context(
        state.single_workspace(),
        state.limits(),
        PathPresentation::SingleCompatible,
        &GitDiffArgs {
            staged,
            path: path.map(String::from),
        },
        &|invocation: &GitInvocation| run(invocation),
        &|_: &str| None,
        &|at: &FullPath| {
            if at.names.len() <= 3 {
                Located::Canonical(at.duplicate())
            } else {
                Located::Nothing
            }
        },
    )
}

fn in_worktree(invocation: &GitInvocation) -> ToolResult<GitOutput> {
    if invocation.args[0] == "rev-parse" {
        told("true\n")
    } else {
        told(&invocation.args.join(" "))
    }
}

#[test]
fn tools_fail_outside_a_git_repository() {
    let outside = |_: &GitInvocation| -> ToolResult<GitOutput> {
        Err(ToolError::msg("git exited with code 128: not a repository"))
    };
    let err = status(&outside).unwrap_err().message();
    assert!(
        err.contains("does not appear to be inside a Git working tree"),
        "{err}"
    );
    assert!(diff(false, None, &outside).is_err());
    assert!(status(&|_: &GitInvocation| told("false")).is_err());
}

#[test]
fn single_mode_non_repository_error_keeps_the_v01_absolute_root() {
    let err = status(&|_: &GitInvocation| told("")).unwrap_err().message();
    assert_eq!(
        err,
        "'/home/me/ws' does not appear to be inside a Git working tree."
    );
}

#[test]
fn status_shows_branch_and_clean_tree() {
    let out = status(&|invocation: &GitInvocation| {
        if invocation.args[0] == "rev-parse" {
            told("true\n")
        } else {
            assert_eq!(
                invocation.args.join(" "),
                "--no-pager status --short --branch -- ."
            );
            assert_eq!(invocation.cap, 256 * 1024);
            told("## main\n")
        }
    })
    .unwrap();
    assert!(out.output.contains("## main"));
    assert!(!out.truncated);
}

#[test]
fn explicit_diff_path_may_not_reference_outside_paths() {
    for outside in ["../outside.txt", "/etc/passwd"] {
        let err = diff(false, Some(outside), &in_worktree)
            .unwrap_err()
            .message();
        assert!(
            err.contains("Invalid diff path"),
            "'{outside}' must be refused: {err}"
        );
    }
}

#[test]
fn staged_flag_uses_cached_diff() {
    let out = diff(true, None, &in_worktree).unwrap();
    assert!(out.staged);
    assert_eq!(out.path, None);
    assert_eq!(
        out.diff,
        "--no-pager diff --no-color --no-ext-diff --no-textconv --relative --cached -- ."
    );
    let out = diff(false, None, &in_worktree).unwrap();
    assert!(!out.diff.contains("--cached"));
}

#[test]
fn diff_can_be_restricted_to_one_path() {
    let out = diff(false, Some("./src/lib.rs"), &in_worktree).unwrap();
    assert_eq!(out.path, Some("src/lib.rs".to_string()));
    assert!(out.diff.ends_with("-- src/lib.rs"), "{}", out.diff);
}

#[test]
fn nonzero_git_exit_becomes_an_error() {
    let err = git::git_outcome(128, b"", b"fatal: bad thing\n", 100).unwrap_err();
    assert_eq!(err.message(), "git exited with code 128: fatal: bad thing");
    let err = git::git_outcome(-1, b"", b"", 100).unwrap_err();
    assert_eq!(err.message(), "git exited with code -1: ");
}

#[test]
fn oversized_git_output_is_bounded() {
    let out = git::git_outcome(0, b"12345", b"", 5).unwrap();
    assert_eq!(out.stdout, "12345");
    assert!(out.stdout_truncated);
    let out = git::git_outcome(0, b"1234", b"", 5).unwrap();
    assert!(!out.stdout_truncated);
}

#[test]
fn hardened_command_strips_redirection_vars() {
    let stripped = git::stripped_git_env();
    for name in [
        "GIT_DIR",
        "GIT_WORK_TREE",
        "GIT_INDEX_FILE",
        "GIT_OBJECT_DIRECTORY",
        "GIT_ALTERNATE_OBJECT_DIRECTORIES",
        "GIT_EXTERNAL_DIFF",
        "GIT_PAGER",
        "GIT_EDITOR",
        "GIT_SEQUENCE_EDITOR",
        "GIT_PAGER_IN_USE",
    ] {
        assert!(stripped.contains(&name.to_string()), "{name} must be stripped");
    }
    let config = git::hardened_config().join(" ");
    assert!(config.contains("-c core.fsmonitor=false"), "{config}");
    assert!(config.contains("-c core.pager=cat"), "{config}");
    assert!(config.contains("-c status.relativePaths=true"), "{config}");
    assert_eq!(
        git::pinned_git_env(),
        ["GIT_OPTIONAL_LOCKS", "1", "GIT_TERMINAL_PROMPT", "0", "PAGER", "cat"]
    );
}

#[test]
fn git_error_presentation_scrubs_roots_at_component_boundaries() {
    let error = git::presented_git_error(
        "fatal: '/srv/ws' and /srv/ws/a but not /srv/ws-2",
        "/srv/ws",
        "",
        &None,
    );
    assert_eq!(
        error.message(),
        "fatal: '.' and ./a but not /srv/ws-2"
    );
    let error = git::presented_git_error(
        "fatal: /real/repo/x and /repo/y",
        "/repo/ws",
        "/repo",
        &Some("/real/repo".to_string()),
    );
    assert_eq!(error.message(), "fatal: ./x and ./y");
}

#[test]
fn redaction_completes_no_root_but_for_dotted_and_overlapping_names() {
    // A name that ends with a dot can be completed by the replacement.
    assert_eq!(
        git::replace_path_prefix("/a/a./b/b", "/a./b", "."),
        "/a./b"
    );
    // Of two occurrences that overlap inside a name the second is passed over.
    assert_eq!(
        git::replace_path_prefix("/ab/ab/a", "/ab/a", "."),
        "/ab/ab/a"
    );
    // Overlaps at the end of a component are found.
    assert_eq!(
        git::replace_path_prefix("/a/b/a/b/a", "/a/b/a", "."),
        "./b/a"
    );
}

#[test]
fn branches_are_read_from_the_first_line() {
    assert_eq!(read_branch("main\n"), Some("main".to_string()));
    assert_eq!(read_branch("HEAD\n"), None);
    assert_eq!(read_branch("\n"), None);
    assert_eq!(read_branch(" topic \r\nother\n"), Some("topic".to_string()));
}

#[test]
fn single_mode_info_tells_root_and_branch() {
    let state = single();
    let info = describe(
        state.single_workspace(),
        WorkspaceIdentity::SingleRoot,
        &|invocation: &GitInvocation| {
            if invocation.args[0] == "rev-parse" {
                told("true")
            } else {
                assert_eq!(
                    invocation.args.join(" "),
                    "--no-pager rev-parse --abbrev-ref HEAD"
                );
                told("main\n")
            }
        },
    );
    match &info.identity {
        ReportedIdentity::SingleRoot { root, name } => {
            assert_eq!(root, "/home/me/ws");
            assert_eq!(name, "ws");
        }
        other => panic!("unexpected {other:?}"),
    }
    assert_eq!(info.server_version, "0.2.0");
    assert!(info.is_repository);
    assert_eq!(info.branch, Some("main".to_string()));
    let outside = describe(
        state.single_workspace(),
        WorkspaceIdentity::SingleRoot,
        &|_: &GitInvocation| Err(ToolError::msg("no git")),
    );
    assert!(!outside.is_repository);
    assert_eq!(outside.branch, None);
}

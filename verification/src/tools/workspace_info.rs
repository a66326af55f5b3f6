//! `workspace_info`: metadata of one workspace.
use crate::config;
use crate::error::ToolResult;
use crate::permissions::Permissions;
use crate::text;
use crate::text::TextLine;
use crate::tools::git;
use crate::tools::git::{GitInvocation, GitOutput};
use crate::workspace;
use crate::workspace::{FullPath, PathView, WorkspaceContext};
use crate::workspace_id::WorkspaceId;
use vstd::prelude::*;

verus! {

broadcast use vstd::string::group_string_axioms;

/// What is told of a workspace's identity.
pub enum WorkspaceIdentity<'a> {
    /// The canonical root and the directory name, for a single workspace.
    SingleRoot,
    /// The logical id alone, for a registry.
    Logical(&'a WorkspaceId),
}

/// The reported identity.
#[derive(Debug)]
pub enum ReportedIdentity {
    /// The canonical root and the directory name.
    SingleRoot {
        /// The canonical root.
        root: String,
        /// The directory name.
        name: String,
    },
    /// The logical id alone.
    Logical(String),
}

/// What `workspace_info` returns.
#[derive(Debug)]
pub struct WorkspaceInfo {
    /// The workspace's identity.
    pub identity: ReportedIdentity,
    /// The server's version.
    pub server_version: String,
    /// What the workspace allows.
    pub permissions: Permissions,
    /// Whether it is in a repository.
    pub is_repository: bool,
    /// The checked-out branch.
    pub branch: Option<String>,
}

/// The arguments of the branch query.
pub open spec fn branch_args() -> Seq<Seq<char>> {
    seq!["--no-pager"@, "rev-parse"@, "--abbrev-ref"@, "HEAD"@]
}

/// The branch that the query's output names: its first line, unless that is
/// empty or a detached head.
pub open spec fn named_branch(stdout: Seq<char>) -> Option<Seq<char>> {
    let lines = text::split_lines(text::trimmed(stdout));
    if lines.len() == 0 {
        None
    } else {
        let branch = text::trimmed(lines[0].text);
        if branch.len() == 0 || branch == "HEAD"@ {
            None
        } else {
            Some(branch)
        }
    }
}

/// Reads the branch that the query's output names.
pub fn read_branch(stdout: &str) -> (branch: Option<String>)
    ensures
        git::optional_view(branch) == named_branch(stdout@),
{
    let lines: Vec<TextLine> = text::lines_of(text::trim_text(stdout).as_str());
    if lines.len() == 0 {
        return None;
    }
    assert(text::line_views(lines@)[0] == lines@[0]@);
    let branch: String = text::trim_text(lines[0].text.as_str());
    if branch.as_str().is_empty() || text::same_text(branch.as_str(), "HEAD") {
        None
    } else {
        Some(branch)
    }
}

/// Whether `(is_repository, branch)` is what the repository queries give. A
/// failed branch query counts as no repository.
pub open spec fn probed<R: Fn(&GitInvocation) -> ToolResult<GitOutput>>(
    run: R,
    root: PathView,
    is_repository: bool,
    branch: Option<Seq<char>>,
) -> bool {
    exists|check: ToolResult<GitOutput>| #[trigger]
        git::ran(run, root, git::worktree_args(), 1024, check) && if !git::is_worktree(check) {
            !is_repository && branch is None
        } else {
            exists|out: ToolResult<GitOutput>| #[trigger]
                git::ran(run, root, branch_args(), 4096, out) && match out {
                    Ok(found) => is_repository && branch == named_branch(found.stdout@),
                    Err(_) => !is_repository && branch is None,
                }
        }
}

fn git_probe<R: Fn(&GitInvocation) -> ToolResult<GitOutput>>(root: &FullPath, run: &R) -> (found: (
    bool,
    Option<String>,
))
    requires
        forall|invocation: &GitInvocation| call_requires(run, (invocation,)),
    ensures
        probed(*run, root@, found.0, git::optional_view(found.1)),
{
    let checking: GitInvocation = git::worktree_invocation(root);
    let check: ToolResult<GitOutput> = run(&checking);
    proof {
        assert(call_ensures(*run, (&checking,), check));
        assert(git::ran(*run, root@, git::worktree_args(), 1024, check));
    }
    let inside: bool = match &check {
        Ok(out) => text::same_text(text::trim_text(out.stdout.as_str()).as_str(), "true"),
        Err(_) => false,
    };
    if !inside {
        return (false, None);
    }
    let mut args: Vec<String> = git::list2("--no-pager", "rev-parse");
    text::push_text(&mut args, "--abbrev-ref");
    text::push_text(&mut args, "HEAD");
    assert(text::text_views(args@) =~= branch_args());
    let asking = GitInvocation { root: root.duplicate(), args, cap: 4096 };
    let out: ToolResult<GitOutput> = run(&asking);
    proof {
        assert(call_ensures(*run, (&asking,), out));
        assert(git::ran(*run, root@, branch_args(), 4096, out));
    }
    match out {
        Ok(found) => (true, read_branch(found.stdout.as_str())),
        Err(_) => (false, None),
    }
}

/// What is reported of a workspace's identity.
pub open spec fn reported(
    identity: ReportedIdentity,
    context: WorkspaceContext,
    asked: WorkspaceIdentity<'_>,
) -> bool {
    let resolver = context.resolver_view();
    match asked {
        WorkspaceIdentity::SingleRoot => identity matches ReportedIdentity::SingleRoot {
            root,
            name,
        } && root@ == text::decoded_text(
            workspace::path_bytes(resolver.root_view(), resolver.separator_view()),
        ) && name@ == resolver.name_view(),
        WorkspaceIdentity::Logical(id) => identity matches ReportedIdentity::Logical(told) && told@
            == id@,
    }
}

/// Whether `info` is what is told of a workspace.
pub open spec fn described<R: Fn(&GitInvocation) -> ToolResult<GitOutput>>(
    run: R,
    context: WorkspaceContext,
    asked: WorkspaceIdentity<'_>,
    info: WorkspaceInfo,
) -> bool {
    &&& reported(info.identity, context, asked)
    &&& info.server_version@ == config::SERVER_VERSION@
    &&& info.permissions == context.permissions_view()
    &&& probed(
        run,
        context.resolver_view().root_view(),
        info.is_repository,
        git::optional_view(info.branch),
    )
}

/// Describes a workspace. `run` carries out a git invocation.
/// With a logical id nothing of the filesystem is told.
pub fn describe<R: Fn(&GitInvocation) -> ToolResult<GitOutput>>(
    context: &WorkspaceContext,
    identity: WorkspaceIdentity<'_>,
    run: &R,
) -> (info: WorkspaceInfo)
    requires
        forall|invocation: &GitInvocation| call_requires(run, (invocation,)),
    ensures
        described(*run, *context, identity, info),
{
    let (is_repository, branch) = git_probe(context.root(), run);
    let told: ReportedIdentity = match identity {
        WorkspaceIdentity::SingleRoot => ReportedIdentity::SingleRoot {
            root: context.resolver().full_text(context.root()),
            name: context.resolver().name(),
        },
        WorkspaceIdentity::Logical(id) => ReportedIdentity::Logical(
            String::from_str(id.as_str()),
        ),
    };
    WorkspaceInfo {
        identity: told,
        server_version: String::from_str(config::SERVER_VERSION),
        permissions: *context.permissions(),
        is_repository,
        branch,
    }
}

/// A branch is named by what git prints, without the white space around it,
/// unless nothing is printed or the head is detached.
pub proof fn law_branch_is_as_printed(stdout: Seq<char>, branch: Seq<char>)
    requires
        text::is_core(stdout, branch),
        !branch.contains('\n'),
    ensures
        branch.len() == 0 || branch == "HEAD"@ ==> named_branch(stdout) is None,
        branch.len() > 0 && branch != "HEAD"@ ==> named_branch(stdout) == Some(branch),
{
    text::law_core_is_unique(stdout, branch);
    if branch.len() > 0 {
        text::lemma_position_from(branch, '\n', 0);
        let end = text::position_from(branch, '\n', 0);
        if end < branch.len() {
            assert(branch[end] == '\n');
        }
        assert(text::split_lines(branch)[0].text == branch);
        assert(branch.subrange(0, branch.len() as int) =~= branch);
        assert(text::is_core(branch, branch));
        text::law_core_is_unique(branch, branch);
    }
}

/// Where more is printed, the first line names the branch.
pub proof fn law_first_line_names_the_branch(
    stdout: Seq<char>,
    core: Seq<char>,
    end: int,
    branch: Seq<char>,
)
    requires
        text::is_core(stdout, core),
        0 <= end < core.len(),
        core[end] == '\n',
        forall|i: int| 0 <= i < end ==> #[trigger] core[i] != '\n',
        text::is_core(core.take(end), branch),
    ensures
        branch.len() == 0 || branch == "HEAD"@ ==> named_branch(stdout) is None,
        branch.len() > 0 && branch != "HEAD"@ ==> named_branch(stdout) == Some(branch),
{
    text::law_core_is_unique(stdout, core);
    text::lemma_position_from(core, '\n', 0);
    let found = text::position_from(core, '\n', 0);
    if found < end {
        assert(core[found] != '\n');
    }
    assert(found == end);
    let first = core.take(end);
    let line = text::split_lines(core)[0].text;
    assert(line == text::terminated_line(first).text);
    if first.len() > 0 && first.last() == '\r' {
        lemma_core_of_shorter(first, branch);
        assert(line == first.drop_last());
        text::law_core_is_unique(first.drop_last(), branch);
    } else {
        assert(line == first);
        text::law_core_is_unique(first, branch);
    }
}

proof fn lemma_core_of_shorter(s: Seq<char>, core: Seq<char>)
    requires
        text::is_core(s, core),
        s.len() > 0,
        s.last() == '\r',
    ensures
        text::is_core(s.drop_last(), core),
{
    let t = s.drop_last();
    let (a, b) = choose|from: int, to: int|
        0 <= from <= to <= s.len() && core == #[trigger] s.subrange(from, to) && (forall|i: int|
            0 <= i < from ==> text::is_white_space(#[trigger] s[i])) && (forall|i: int|
            to <= i < s.len() ==> text::is_white_space(#[trigger] s[i])) && (core.len() > 0
            ==> !text::is_white_space(core[0]) && !text::is_white_space(core.last()));
    assert(text::is_white_space(s.last()));
    assert forall|i: int| 0 <= i < t.len() implies #[trigger] t[i] == s[i] by {}
    if b < s.len() {
        assert(t.subrange(a, b) =~= core);
    } else {
        if a < s.len() {
            assert(core.last() == s.last());
        }
        assert(t.subrange(t.len() as int, t.len() as int) =~= core);
    }
}

/// What is told of a workspace: what it allows, the version of the server,
/// and with a logical id that id alone.
pub proof fn law_info_tells_the_workspace<R: Fn(&GitInvocation) -> ToolResult<GitOutput>>(
    run: R,
    context: WorkspaceContext,
    asked: WorkspaceIdentity<'_>,
    info: WorkspaceInfo,
)
    requires
        described(run, context, asked, info),
    ensures
        info.permissions == context.permissions_view(),
        info.server_version@ == "0.2.0"@,
        asked matches WorkspaceIdentity::Logical(id) ==> (info.identity
            matches ReportedIdentity::Logical(told) && told@ == id@),
        asked is SingleRoot ==> (info.identity matches ReportedIdentity::SingleRoot { root, name }
            && name@ == context.resolver_view().name_view() && root@ == text::decoded_text(
            workspace::path_bytes(
                context.resolver_view().root_view(),
                context.resolver_view().separator_view(),
            ),
        )),
        info.branch is Some ==> info.is_repository,
{
}

/// A branch that is told is one that an invocation in the root of the
/// workspace printed.
pub proof fn law_branch_comes_from_git<R: Fn(&GitInvocation) -> ToolResult<GitOutput>>(
    run: R,
    root: PathView,
    branch: Seq<char>,
) -> (told: (GitInvocation, GitOutput))
    requires
        probed(run, root, true, Some(branch)),
    ensures
        call_ensures(run, (&told.0,), Ok::<GitOutput, crate::error::ToolError>(told.1)),
        told.0.root@ == root,
        text::text_views(told.0.args@) == seq![
            "--no-pager"@,
            "rev-parse"@,
            "--abbrev-ref"@,
            "HEAD"@,
        ],
        named_branch(told.1.stdout@) == Some(branch),
{
    let out = choose|out: ToolResult<GitOutput>| #[trigger]
        git::ran(run, root, branch_args(), 4096, out) && out is Ok && named_branch(
            out->Ok_0.stdout@,
        ) == Some(branch);
    let invocation = choose|invocation: &GitInvocation|
        invocation.root@ == root && text::text_views(invocation.args@) == branch_args()
            && invocation.cap == 4096 && #[trigger] call_ensures(run, (invocation,), out);
    (*invocation, out->Ok_0)
}

/// A workspace is told to be in a repository exactly where the work tree check
/// said so and the branch query succeeded, and a branch is told only then.
pub proof fn law_repositories_are_told_by_git<R: Fn(&GitInvocation) -> ToolResult<GitOutput>>(
    run: R,
    root: PathView,
    is_repository: bool,
    branch: Option<Seq<char>>,
)
    requires
        probed(run, root, is_repository, branch),
    ensures
        is_repository ==> exists|invocation: &GitInvocation, check: ToolResult<GitOutput>|
            invocation.root@ == root && #[trigger] call_ensures(run, (invocation,), check)
                && git::is_worktree(check),
        is_repository ==> exists|invocation: &GitInvocation, out: GitOutput|
            invocation.root@ == root && #[trigger] call_ensures(
                run,
                (invocation,),
                Ok::<GitOutput, crate::error::ToolError>(out),
            ) && branch == named_branch(out.stdout@),
        !is_repository ==> branch is None && ((exists|
            invocation: &GitInvocation,
            check: ToolResult<GitOutput>,
        |
            invocation.root@ == root && #[trigger] call_ensures(run, (invocation,), check)
                && !git::is_worktree(check)) || (exists|
            invocation: &GitInvocation,
            failure: crate::error::ToolError,
        |
            invocation.root@ == root && #[trigger] call_ensures(
                run,
                (invocation,),
                Err::<GitOutput, crate::error::ToolError>(failure),
            ))),
{
    let check = choose|check: ToolResult<GitOutput>| #[trigger]
        git::ran(run, root, git::worktree_args(), 1024, check) && if !git::is_worktree(check) {
            !is_repository && branch is None
        } else {
            exists|out: ToolResult<GitOutput>| #[trigger]
                git::ran(run, root, branch_args(), 4096, out) && match out {
                    Ok(found) => is_repository && branch == named_branch(found.stdout@),
                    Err(_) => !is_repository && branch is None,
                }
        };
    let asked = choose|invocation: &GitInvocation|
        invocation.root@ == root && #[trigger] call_ensures(run, (invocation,), check);
    assert(call_ensures(run, (asked,), check));
    if git::is_worktree(check) {
        let out = choose|out: ToolResult<GitOutput>| #[trigger]
            git::ran(run, root, branch_args(), 4096, out) && match out {
                Ok(found) => is_repository && branch == named_branch(found.stdout@),
                Err(_) => !is_repository && branch is None,
            };
        let invocation = choose|invocation: &GitInvocation|
            invocation.root@ == root && #[trigger] call_ensures(run, (invocation,), out);
        match out {
            Ok(found) => {
                assert(call_ensures(
                    run,
                    (invocation,),
                    Ok::<GitOutput, crate::error::ToolError>(found),
                ));
            },
            Err(failure) => {
                assert(call_ensures(
                    run,
                    (invocation,),
                    Err::<GitOutput, crate::error::ToolError>(failure),
                ));
            },
        }
    }
}

} // verus!

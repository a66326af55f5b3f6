//! Registry mode: listing workspaces, selecting one by its exact id, and the
//! gates of the selected workspace. Roots are never reported.
use crate::error::{ToolError, ToolResult};
use crate::permissions::Permissions;
use crate::registry::WorkspaceRegistry;
use crate::tools::git::{GitInvocation, GitOutput};
use crate::tools::workspace_info;
use crate::tools::workspace_info::{WorkspaceIdentity, WorkspaceInfo};
use crate::workspace::WorkspaceContext;
use crate::workspace_id::WorkspaceId;
use std::sync::Arc;
use vstd::prelude::*;

verus! {

broadcast use vstd::string::group_string_axioms;

/// Arguments of `workspace_info` in registry mode.
#[derive(Debug)]
pub struct WorkspaceInfoArgs {
    /// The logical id of the workspace to describe.
    pub workspace: WorkspaceId,
}

/// One listed workspace.
#[derive(Debug)]
pub struct ListedWorkspace {
    /// Its id.
    pub id: String,
    /// What it allows.
    pub permissions: Permissions,
}

/// Lists the workspaces in the order of their ids, each with what it allows
/// and nothing else.
pub fn list_workspaces(registry: &WorkspaceRegistry) -> (listed: Vec<ListedWorkspace>)
    requires
        registry.wf(),
    ensures
        listed@.len() == registry.contexts().len(),
        forall|i: int|
            0 <= i < listed@.len() ==> registry.contexts()[i].id_view() == Some(
                (#[trigger] listed@[i]).id@,
            ) && listed@[i].permissions == registry.contexts()[i].permissions_view(),
{
    let contexts: Vec<&Arc<WorkspaceContext>> = registry.iter_sorted();
    let mut listed: Vec<ListedWorkspace> = Vec::new();
    for k in 0..contexts.len()
        invariant
            registry.wf(),
            contexts@.len() == registry.contexts().len(),
            forall|i: int|
                0 <= i < contexts@.len() ==> **(#[trigger] contexts@[i]) == registry.contexts()[i],
            listed@.len() == k,
            forall|i: int|
                0 <= i < k ==> registry.contexts()[i].id_view() == Some(
                    (#[trigger] listed@[i]).id@,
                ) && listed@[i].permissions == registry.contexts()[i].permissions_view(),
    {
        let context: &WorkspaceContext = contexts[k];
        assert(*context == registry.contexts()[k as int]);
        assert(registry.contexts()[k as int].id_view() is Some);
        if let Some(id) = context.id() {
            listed.push(
                ListedWorkspace {
                    id: String::from_str(id.as_str()),
                    permissions: *context.permissions(),
                },
            );
        }
    }
    listed
}

/// The refusal of an id that is not configured. It names the requested id and
/// no other.
pub open spec fn unknown_text(id: Seq<char>) -> Seq<char> {
    "Unknown workspace '"@ + id
        + "'. Use list_workspaces to discover valid workspace IDs."@
}

/// The refusal of an id that is not configured.
pub fn unknown_workspace(requested: &WorkspaceId) -> (error: ToolError)
    ensures
        error.0@ == unknown_text(requested@),
{
    ToolError(
        String::from_str("Unknown workspace '").concat(requested.as_str()).concat(
            "'. Use list_workspaces to discover valid workspace IDs.",
        ),
    )
}

/// Whether a registry has no workspace with an id.
pub open spec fn is_unknown(registry: WorkspaceRegistry, id: Seq<char>) -> bool {
    forall|i: int|
        0 <= i < registry.contexts().len() ==> (#[trigger] registry.contexts()[i]).id_view() != Some(
            id,
        )
}

/// Whether an id selects a workspace of a registry.
pub open spec fn selects(registry: WorkspaceRegistry, id: Seq<char>, context: WorkspaceContext) -> bool {
    registry.contexts().contains(context) && context.id_view() == Some(id)
}

/// What a registry tool tells, with the id of the workspace that it is told
/// of.
#[derive(Debug)]
pub struct Selected<T> {
    /// The id of the workspace.
    pub workspace: String,
    /// What is told.
    pub value: T,
}

/// Whether `answer` is `told` with an id attached; a refusal stays as it is.
pub open spec fn with_provenance<T>(
    answer: ToolResult<Selected<T>>,
    told: ToolResult<T>,
    id: Seq<char>,
) -> bool {
    match (told, answer) {
        (Ok(value), Ok(selected)) => selected.workspace@ == id && selected.value == value,
        (Err(a), Err(b)) => a == b,
        _ => false,
    }
}

/// Attaches the id of the selected workspace to what a tool tells.
pub fn with_workspace_provenance<T>(told: ToolResult<T>, id: &WorkspaceId) -> (answer: ToolResult<
    Selected<T>,
>)
    ensures
        with_provenance(answer, told, id@),
{
    match told {
        Ok(value) => Ok(Selected { workspace: String::from_str(id.as_str()), value }),
        Err(e) => Err(e),
    }
}

/// Selects a workspace by its exact id.
pub fn resolve_registry_workspace(registry: &WorkspaceRegistry, id: &WorkspaceId) -> (result:
    ToolResult<Arc<WorkspaceContext>>)
    ensures
        match result {
            Ok(context) => selects(*registry, id@, *context),
            Err(e) => is_unknown(*registry, id@) && e.0@ == unknown_text(id@),
        },
{
    match registry.get(id) {
        Some(context) => Ok(context),
        None => Err(unknown_workspace(id)),
    }
}

/// Succeeds exactly where the selected workspace allows writing.
pub fn require_registry_write(context: &WorkspaceContext, id: &WorkspaceId) -> (result: ToolResult<
    (),
>)
    ensures
        match result {
            Ok(_) => context.permissions_view().write,
            Err(e) => !context.permissions_view().write && e.0@ == "Workspace '"@ + id@
                + "' does not allow file writes."@,
        },
{
    if context.permissions().write {
        Ok(())
    } else {
        Err(
            ToolError(
                String::from_str("Workspace '").concat(id.as_str()).concat(
                    "' does not allow file writes.",
                ),
            ),
        )
    }
}

/// Succeeds exactly where the selected workspace allows running programs.
pub fn require_registry_exec(context: &WorkspaceContext, id: &WorkspaceId) -> (result: ToolResult<
    (),
>)
    ensures
        match result {
            Ok(_) => context.permissions_view().execute,
            Err(e) => !context.permissions_view().execute && e.0@ == "Workspace '"@ + id@
                + "' does not allow command execution."@,
        },
{
    if context.permissions().execute {
        Ok(())
    } else {
        Err(
            ToolError(
                String::from_str("Workspace '").concat(id.as_str()).concat(
                    "' does not allow command execution.",
                ),
            ),
        )
    }
}

/// Succeeds exactly where the selected workspace allows a shell.
pub fn require_registry_shell(context: &WorkspaceContext, id: &WorkspaceId) -> (result: ToolResult<
    (),
>)
    ensures
        match result {
            Ok(_) => context.permissions_view().shell,
            Err(e) => !context.permissions_view().shell && e.0@ == "Workspace '"@ + id@
                + "' does not allow shell execution."@,
        },
{
    if context.permissions().shell {
        Ok(())
    } else {
        Err(
            ToolError(
                String::from_str("Workspace '").concat(id.as_str()).concat(
                    "' does not allow shell execution.",
                ),
            ),
        )
    }
}

/// Selects the workspace of an `apply_patch` request: it must exist and
/// allow writing.
pub fn select_for_patch(registry: &WorkspaceRegistry, id: &WorkspaceId) -> (result: ToolResult<
    Arc<WorkspaceContext>,
>)
    ensures
        match result {
            Ok(context) => selects(*registry, id@, *context) && context.permissions_view().write,
            Err(e) => {
                ||| e.0@ == unknown_text(id@) && is_unknown(*registry, id@)
                ||| e.0@ == "Workspace '"@ + id@ + "' does not allow file writes."@ && exists|
                    i: int,
                |
                    0 <= i < registry.contexts().len() && (
                    #[trigger] registry.contexts()[i]).id_view() == Some(id@)
                        && !registry.contexts()[i].permissions_view().write
            },
        },
{
    let context: Arc<WorkspaceContext> = match resolve_registry_workspace(registry, id) {
        Ok(context) => context,
        Err(e) => {
            return Err(e);
        },
    };
    match require_registry_write(&context, id) {
        Ok(_) => Ok(context),
        Err(e) => Err(e),
    }
}

/// Selects the workspace of a `run_command` request: it must exist, allow
/// running programs, and allow a shell where one is asked for. The program
/// permission is asked first.
pub fn select_for_command(registry: &WorkspaceRegistry, id: &WorkspaceId, shell: bool) -> (result:
    ToolResult<Arc<WorkspaceContext>>)
    ensures
        match result {
            Ok(context) => selects(*registry, id@, *context) && context.permissions_view().execute && (shell
                ==> context.permissions_view().shell),
            Err(e) => {
                ||| e.0@ == unknown_text(id@) && is_unknown(*registry, id@)
                ||| e.0@ == "Workspace '"@ + id@ + "' does not allow command execution."@ && exists|
                    i: int,
                |
                    0 <= i < registry.contexts().len() && (
                    #[trigger] registry.contexts()[i]).id_view() == Some(id@)
                        && !registry.contexts()[i].permissions_view().execute
                ||| e.0@ == "Workspace '"@ + id@ + "' does not allow shell execution."@ && shell
                    && exists|i: int|
                    0 <= i < registry.contexts().len() && (
                    #[trigger] registry.contexts()[i]).id_view() == Some(id@)
                        && registry.contexts()[i].permissions_view().execute
                        && !registry.contexts()[i].permissions_view().shell
            },
        },
{
    let context: Arc<WorkspaceContext> = match resolve_registry_workspace(registry, id) {
        Ok(context) => context,
        Err(e) => {
            return Err(e);
        },
    };
    if let Err(e) = require_registry_exec(&context, id) {
        return Err(e);
    }
    if shell {
        if let Err(e) = require_registry_shell(&context, id) {
            return Err(e);
        }
    }
    Ok(context)
}

/// Selection is exact: an id selects one context and no other, so what a
/// request is allowed never depends on another workspace.
pub proof fn law_selection_is_exact(
    registry: WorkspaceRegistry,
    one: WorkspaceContext,
    other: WorkspaceContext,
)
    requires
        registry.wf(),
        registry.contexts().contains(one),
        registry.contexts().contains(other),
        one.id_view() == other.id_view(),
    ensures
        one == other,
{
    let i = choose|i: int| 0 <= i < registry.contexts().len() && registry.contexts()[i] == one;
    let j = choose|j: int| 0 <= j < registry.contexts().len() && registry.contexts()[j] == other;
    crate::registry::law_ids_are_unique(registry, i, j);
}

/// `workspace_info` in registry mode: the workspace is selected by its exact
/// id, and the id is all that is told of its identity. An unknown id starts
/// nothing.
pub fn workspace_info<R: Fn(&GitInvocation) -> ToolResult<GitOutput>>(
    registry: &WorkspaceRegistry,
    args: &WorkspaceInfoArgs,
    run: &R,
) -> (result: ToolResult<WorkspaceInfo>)
    requires
        forall|invocation: &GitInvocation| call_requires(run, (invocation,)),
    ensures
        match result {
            Err(e) => is_unknown(*registry, args.workspace@) && e.0@ == unknown_text(
                args.workspace@,
            ),
            Ok(info) => exists|context: WorkspaceContext| #[trigger]
                selects(*registry, args.workspace@, context) && workspace_info::described(
                    *run,
                    context,
                    WorkspaceIdentity::Logical(&args.workspace),
                    info,
                ),
        },
{
    match resolve_registry_workspace(registry, &args.workspace) {
        Err(e) => Err(e),
        Ok(context) => Ok(
            workspace_info::describe(&context, WorkspaceIdentity::Logical(&args.workspace), run),
        ),
    }
}

/// An id is unknown exactly where it selects no workspace.
pub proof fn law_ids_select_or_are_unknown(registry: WorkspaceRegistry, id: Seq<char>)
    ensures
        is_unknown(registry, id) <==> !exists|context: WorkspaceContext| #[trigger]
            selects(registry, id, context),
{
    if !is_unknown(registry, id) {
        let i = choose|i: int|
            0 <= i < registry.contexts().len() && (#[trigger] registry.contexts()[i]).id_view()
                == Some(id);
        assert(selects(registry, id, registry.contexts()[i]));
    } else {
        assert forall|context: WorkspaceContext| !#[trigger] selects(registry, id, context) by {
            if selects(registry, id, context) {
                let i = choose|i: int|
                    0 <= i < registry.contexts().len() && registry.contexts()[i] == context;
                assert(registry.contexts()[i].id_view() == Some(id));
            }
        }
    }
}

/// What a tool tells is passed on as it is, with the id of the workspace that
/// it was asked of; and so is a refusal.
pub proof fn law_answers_carry_the_id<T>(
    answer: ToolResult<Selected<T>>,
    told: ToolResult<T>,
    id: Seq<char>,
)
    requires
        with_provenance(answer, told, id),
    ensures
        answer is Ok <==> told is Ok,
        answer matches Ok(selected) ==> selected.workspace@ == id && told == Ok::<T, ToolError>(
            selected.value,
        ),
        answer matches Err(e) ==> told == Err::<T, ToolError>(e),
{
}

/// The refusal of an unknown id names it.
pub proof fn law_unknown_ids_are_named(id: Seq<char>)
    ensures
        crate::text::occurs(unknown_text(id), id),
{
    crate::text::law_occurrences_are_found_anywhere(
        "Unknown workspace '"@,
        id,
        "'. Use list_workspaces to discover valid workspace IDs."@,
        Seq::empty(),
        0,
    );
}

} // verus!

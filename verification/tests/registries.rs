//! The workspace registry and the tools that select from it.
use nian_workspace::cli::{Cli, TransportChoice};
use nian_workspace::config::{AppState, Limits, RuntimeMode, SingleRoot};
use nian_workspace::error::{ToolError, ToolResult};
use nian_workspace::permissions::SetupError;
use nian_workspace::registry::{
    RootFacts, WorkspaceConfigEntry, WorkspaceConfigFile, WorkspaceRegistry,
    MAX_REGISTRY_WORKSPACES,
};
use nian_workspace::tools::discovery::{
    list_workspaces, select_for_command, select_for_patch, workspace_info, WorkspaceInfoArgs,
};
use nian_workspace::tools::git::{
    registry_git_diff, registry_git_status, GitDiffArgs, GitInvocation, GitOutput, GitStatusArgs,
    RegistryGitDiffArgs, RegistryGitStatusArgs,
};
use nian_workspace::tools::workspace_info::ReportedIdentity;
use nian_workspace::workspace::{FullPath, Located};
use nian_workspace::workspace_id::WorkspaceId;
use std::cell::Cell;
use std::path::PathBuf;

fn full(path: &str) -> FullPath {
    FullPath {
        prefix: Vec::new(),
        names: path
            .split('/')
            .filter(|name| !name.is_empty() && *name != ".")
            .map(|name| name.as_bytes().to_vec())
            .collect(),
    }
}

fn shown(path: &FullPath) -> String {
    let names: Vec<String> = path
        .names
        .iter()
        .map(|name| String::from_utf8(name.clone()).unwrap())
        .collect();
    format!("/{}", names.join("/"))
}

/// Directories, plain files and links, kept in memory.
struct Disk {
    dirs: Vec<String>,
    files: Vec<String>,
    links: Vec<(String, String)>,
}

impl Disk {
    fn new(dirs: &[&str]) -> Disk {
        let mut all: Vec<String> = vec!["/".to_string()];
        for dir in dirs {
            let path = full(dir);
            for depth in 1..=path.names.len() {
                let part = FullPath {
                    prefix: Vec::new(),
                    names: path.names[..depth].to_vec(),
                };
                if !all.contains(&shown(&part)) {
                    all.push(shown(&part));
                }
            }
        }
        Disk {
            dirs: all,
            files: Vec::new(),
            links: Vec::new(),
        }
    }

    fn physical(&self, path: &str) -> String {
        let path = shown(&full(path));
        match self.links.iter().find(|(from, _)| *from == path) {
            Some((_, to)) => to.clone(),
            None => path,
        }
    }

    fn identity(&self, path: &str) -> Result<u64, String> {
        match self.dirs.iter().position(|dir| dir == path) {
            Some(at) => Ok(at as u64),
            None => Err("No such file or directory".to_string()),
        }
    }

    fn facts(&self, root: &str) -> RootFacts {
        let physical = self.physical(root);
        let canonical = full(&physical);
        let mut ancestors = Vec::new();
        for levels in 0..canonical.names.len() {
            ancestors.push(self.identity(&shown(&canonical.above(levels))));
        }
        let directory = self.dirs.contains(&physical);
        RootFacts {
            exists: directory || self.files.contains(&physical),
            directory,
            identity: self.identity(&physical),
            canonical: Ok(canonical),
            ancestors,
        }
    }

    fn build(&self, toml: &str) -> Result<WorkspaceRegistry, SetupError> {
        WorkspaceRegistry::from_toml_str(toml, b'/', &|root: &str| self.facts(root))
    }

    fn build_ok(&self, toml: &str) -> WorkspaceRegistry {
        match self.build(toml) {
            Ok(registry) => registry,
            Err(e) => panic!("config should be valid: {}", e.message()),
        }
    }

    fn build_err(&self, toml: &str) -> String {
        match self.build(toml) {
            Ok(_) => panic!("config should be rejected"),
            Err(e) => e.message(),
        }
    }
}

fn config_for(entries: &[(&str, &str, &str)]) -> String {
    let mut out = String::from("version = 1\n\n");
    for (id, root, perms) in entries {
        out.push_str(&format!("[workspaces.{id}]\nroot = '{root}'\n{perms}\n"));
    }
    out
}

fn id(raw: &str) -> WorkspaceId {
    WorkspaceId::parse(raw).unwrap()
}

fn ids(registry: &WorkspaceRegistry) -> Vec<String> {
    registry
        .iter_sorted()
        .iter()
        .map(|ctx| ctx.id().unwrap().as_str().to_string())
        .collect()
}

// ---------------------------------------------------------------------------
// The configuration
// ---------------------------------------------------------------------------

#[test]
fn accepts_one_workspace_with_conservative_defaults() {
    let disk = Disk::new(&["/t/ws"]);
    let registry = disk.build_ok(&config_for(&[("solo", "/t/ws", "")]));
    assert_eq!(registry.iter_sorted().len(), 1);
    let ctx = registry.iter_sorted()[0].clone();
    assert_eq!(ctx.id().unwrap().as_str(), "solo");
    assert_eq!(shown(ctx.root()), "/t/ws");
    let perms = ctx.permissions();
    assert!(perms.read);
    assert!(!perms.write);
    assert!(!perms.execute);
    assert!(!perms.shell);
}

#[test]
fn accepts_registry_with_exactly_the_maximum_workspace_count() {
    let roots: Vec<String> = (0..MAX_REGISTRY_WORKSPACES)
        .map(|i| format!("/t/ws{i:02}"))
        .collect();
    let names: Vec<String> = (0..MAX_REGISTRY_WORKSPACES)
        .map(|i| format!("w{i:02}"))
        .collect();
    let dirs: Vec<&str> = roots.iter().map(|r| r.as_str()).collect();
    let disk = Disk::new(&dirs);
    let entries: Vec<(&str, &str, &str)> = names
        .iter()
        .zip(roots.iter())
        .map(|(n, r)| (n.as_str(), r.as_str(), "write = true\nexec = true"))
        .collect();
    let registry = disk.build_ok(&config_for(&entries));
    let ids = ids(&registry);
    assert_eq!(ids.len(), MAX_REGISTRY_WORKSPACES);
    assert_eq!(ids.first().unwrap(), "w00");
    assert_eq!(ids.last().unwrap(), "w63");
}

#[test]
fn rejects_registry_above_the_maximum_workspace_count() {
    let mut config = String::from("version = 1\n\n");
    for i in 0..=MAX_REGISTRY_WORKSPACES {
        config.push_str(&format!(
            "[workspaces.w{i:02}]\nroot = '/nonexistent/ws{i:02}'\n\n"
        ));
    }
    let err = Disk::new(&[]).build_err(&config);
    assert!(
        err.contains(&format!(
            "declares {} workspaces",
            MAX_REGISTRY_WORKSPACES + 1
        )),
        "{err}"
    );
    assert!(
        err.contains(&format!("at most {MAX_REGISTRY_WORKSPACES}")),
        "{err}"
    );
}

#[test]
fn accepts_multiple_workspaces_and_explicit_permissions() {
    let disk = Disk::new(&["/t/alpha", "/t/beta"]);
    let registry = disk.build_ok(&config_for(&[
        ("alpha", "/t/alpha", "write = true\nexec = true"),
        ("beta", "/t/beta", ""),
    ]));
    assert_eq!(ids(&registry), ["alpha", "beta"]);

    let alpha = registry.get(&id("alpha")).unwrap();
    assert!(alpha.permissions().write);
    assert!(alpha.permissions().execute);
    assert!(!alpha.permissions().shell);

    let beta = registry.get(&id("beta")).unwrap();
    assert!(!beta.permissions().write);
    assert!(!beta.permissions().execute);
}

#[test]
fn accepts_sibling_roots_and_prefix_sharing_names() {
    let disk = Disk::new(&["/t/project", "/t/project-other"]);
    let registry = disk.build_ok(&config_for(&[
        ("one", "/t/project", ""),
        ("two", "/t/project-other", ""),
    ]));
    assert_eq!(registry.iter_sorted().len(), 2);
}

#[test]
fn rejects_unsupported_and_missing_version() {
    let disk = Disk::new(&["/t/ws"]);
    let err = disk.build_err("version = 2\n\n[workspaces.ws]\nroot = '/t/ws'\n");
    assert!(
        err.contains("Unsupported workspace config version: 2"),
        "{err}"
    );
    let err = disk.build_err("[workspaces.ws]\nroot = '/t/ws'\n");
    assert!(err.contains("missing field `version`"), "{err}");
    let err = disk.build_err("version = \"1\"\n\n[workspaces.ws]\nroot = '/t/ws'\n");
    assert!(err.contains("invalid workspace configuration"), "{err}");
}

#[test]
fn rejects_empty_registry() {
    let disk = Disk::new(&[]);
    let err = disk.build_err("version = 1\n\n[workspaces]\n");
    assert!(err.contains("at least one workspace"), "{err}");
    let err = disk.build_err("version = 1\n");
    assert!(err.contains("missing field `workspaces`"), "{err}");
}

#[test]
fn rejects_malformed_toml() {
    let disk = Disk::new(&["/t/ws"]);
    assert!(disk.build("version = 1\n[not closed").is_err());
    let dup = "version = 1\n\n[workspaces.ws]\nroot = '/t/ws'\n\n[workspaces.ws]\nroot = '/t/ws'\n";
    assert!(disk.build(dup).is_err());
}

#[test]
fn rejects_unknown_fields_strictly() {
    let disk = Disk::new(&["/t/ws"]);
    let err =
        disk.build_err("version = 1\nunknown_top_level = true\n\n[workspaces.ws]\nroot = '/t/ws'\n");
    assert!(err.contains("unknown field"), "{err}");
    let err = disk.build_err("version = 1\n\n[workspaces.ws]\nroot = '/t/ws'\nadmin = true\n");
    assert!(err.contains("unknown field"), "{err}");
    let err = disk.build_err("version = 1\n\n[workspaces.ws]\nroot = '/t/ws'\nwriet = true\n");
    assert!(err.contains("unknown field"), "{err}");
}

#[test]
fn rejects_fields_of_the_wrong_type() {
    let disk = Disk::new(&["/t/ws"]);
    for toml in [
        "version = 1\n\n[workspaces.ws]\nroot = 5\n",
        "version = 1\n\n[workspaces.ws]\nroot = '/t/ws'\nwrite = 'yes'\n",
        "version = 1\nworkspaces = 3\n",
        "version = -1\n\n[workspaces.ws]\nroot = '/t/ws'\n",
        "version = 1\n\n[workspaces.ws]\nwrite = true\n",
    ] {
        let err = disk.build_err(toml);
        assert!(err.contains("invalid workspace configuration"), "{err}");
    }
}

#[test]
fn rejects_invalid_workspace_ids_in_config() {
    let disk = Disk::new(&["/t/ws"]);
    for bad_id in ["Nian-Vision", ".hidden", "-lead", "has/slash", "has space"] {
        let err = disk.build_err(&format!(
            "version = 1\n\n[workspaces.'{bad_id}']\nroot = '/t/ws'\n"
        ));
        assert!(
            err.contains("invalid workspace id"),
            "id '{bad_id}' should be rejected: {err}"
        );
    }
}

#[test]
fn rejects_allow_shell_without_exec() {
    let disk = Disk::new(&["/t/ws"]);
    let err = disk.build_err(&config_for(&[("ws", "/t/ws", "allow_shell = true")]));
    assert!(
        err.contains("allow_shell = true requires exec = true"),
        "{err}"
    );
}

#[test]
fn rejects_nonexistent_root() {
    let disk = Disk::new(&["/t"]);
    let err = disk.build_err(&config_for(&[("ws", "/t/does-not-exist", "")]));
    assert!(err.contains("does not exist"), "{err}");
}

#[test]
fn rejects_file_as_root() {
    let mut disk = Disk::new(&["/t"]);
    disk.files.push("/t/plain-file".to_string());
    let err = disk.build_err(&config_for(&[("ws", "/t/plain-file", "")]));
    assert!(err.contains("is not a directory"), "{err}");
}

#[test]
fn rejects_duplicate_canonical_roots() {
    let disk = Disk::new(&["/t/ws"]);
    let err = disk.build_err(&config_for(&[
        ("one", "/t/ws", ""),
        ("two", "/t/./ws", ""),
    ]));
    assert!(err.contains("same directory"), "{err}");
}

#[test]
fn rejects_symlink_alias_to_same_root() {
    let mut disk = Disk::new(&["/t/real"]);
    disk.links
        .push(("/t/alias".to_string(), "/t/real".to_string()));
    let err = disk.build_err(&config_for(&[
        ("real", "/t/real", ""),
        ("alias", "/t/alias", ""),
    ]));
    assert!(err.contains("same directory"), "{err}");
}

#[test]
fn accepts_absolute_root() {
    let disk = Disk::new(&["/t/ws"]);
    let registry = disk.build_ok(&config_for(&[("ws", "/t/ws", "")]));
    assert_eq!(shown(registry.iter_sorted()[0].root()), "/t/ws");
}

#[test]
fn rejects_relative_root() {
    let err = Disk::new(&[])
        .build_err("version = 1\n\n[workspaces.ws]\nroot = 'relative/project'\n");
    assert!(err.contains("must be absolute"), "{err}");
}

#[test]
fn case_distinct_roots_follow_filesystem_case_semantics() {
    let config = config_for(&[("upper", "/t/Alpha", ""), ("lower", "/t/alpha", "")]);
    // A volume that tells the cases apart.
    let disk = Disk::new(&["/t/Alpha", "/t/alpha"]);
    assert_eq!(disk.build_ok(&config).iter_sorted().len(), 2);
    // A volume that does not.
    let mut disk = Disk::new(&["/t/Alpha"]);
    disk.links
        .push(("/t/alpha".to_string(), "/t/Alpha".to_string()));
    let err = disk.build_err(&config);
    assert!(err.contains("same directory"), "{err}");
}

#[test]
fn quoted_dotted_workspace_id_loads_as_one_id() {
    let disk = Disk::new(&["/t/ws"]);
    let registry =
        disk.build_ok("version = 1\n\n[workspaces.\"project.v2\"]\nroot = '/t/ws'\n");
    assert_eq!(ids(&registry), ["project.v2"]);
    assert!(registry.get(&id("project.v2")).is_some());

    let err = disk.build_err("version = 1\n\n[workspaces.project.v2]\nroot = '/t/ws'\n");
    assert!(err.contains("unknown field"), "{err}");
}

#[test]
fn rejects_nested_roots_in_both_declaration_orders() {
    let disk = Disk::new(&["/t/parent/project"]);
    let err = disk.build_err(&config_for(&[
        ("parent", "/t/parent", "write = true"),
        ("child", "/t/parent/project", ""),
    ]));
    assert!(err.contains("is nested inside"), "{err}");
    assert!(err.contains("forbidden"), "{err}");

    let err = disk.build_err(&config_for(&[
        ("child", "/t/parent/project", ""),
        ("parent", "/t/parent", "write = true"),
    ]));
    assert!(err.contains("is nested inside"), "{err}");
}

#[test]
fn workspace_context_resolves_paths_within_registry_workspace() {
    let disk = Disk::new(&["/t/ws", "/etc"]);
    let registry = disk.build_ok(&config_for(&[("ws", "/t/ws", "write = true")]));
    let ctx = registry.iter_sorted()[0].clone();
    let locate = |path: &FullPath| {
        if disk.dirs.contains(&shown(path)) {
            Located::Canonical(path.duplicate())
        } else {
            Located::Nothing
        }
    };
    assert!(ctx.resolver().resolve(Some("src/main.rs"), &locate).is_ok());
    assert!(ctx
        .resolver()
        .resolve(Some("../../etc/passwd"), &locate)
        .is_err());
    assert_eq!(shown(ctx.root()), "/t/ws");
    assert_eq!(ctx.id().unwrap().as_str(), "ws");
}

#[test]
fn entries_may_list_their_values_in_order() {
    let disk = Disk::new(&["/t/a", "/t/b", "/t/c"]);
    let registry = disk.build_ok(
        "version = 1\n[workspaces]\na = ['/t/a', true, true, true]\nb = ['/t/b', false, true, false, 7]\nc = ['/t/c']\n",
    );
    let flags: Vec<(bool, bool, bool)> = registry
        .iter_sorted()
        .iter()
        .map(|ctx| {
            let p = ctx.permissions();
            (p.write, p.execute, p.shell)
        })
        .collect();
    assert_eq!(
        flags,
        [(true, true, true), (false, true, false), (false, false, false)]
    );
    assert_eq!(shown(registry.get(&id("b")).unwrap().root()), "/t/b");
    let listed = |values: &str| disk.build_err(&format!("version = 1\n[workspaces]\na = {values}\n"));
    assert!(listed("[]").contains("invalid length 0"));
    assert!(listed("[true]").contains("field `root`"));
    assert!(listed("['/t/a', 1]").contains("field `write`"));
    assert!(listed("['/t/a', true, 'x']").contains("field `exec`"));
    assert!(listed("['/t/a', true, true, []]").contains("field `allow_shell`"));
    assert!(listed("['/t/a', false, false, true]").contains("requires exec = true"));
    assert!(listed("'/t/a'").contains("expected a table"));
}

#[test]
fn building_checks_the_outline_itself() {
    let entry = |id: &str| WorkspaceConfigEntry {
        id: id.to_string(),
        root: "/t/a".to_string(),
        write: false,
        execute: false,
        allow_shell: false,
    };
    let refusal = |version: u64, workspaces: Vec<WorkspaceConfigEntry>| {
        let disk = Disk::new(&["/t/a"]);
        let facts: Vec<RootFacts> = workspaces.iter().map(|e| disk.facts(&e.root)).collect();
        WorkspaceRegistry::build(&WorkspaceConfigFile { version, workspaces }, &facts, b'/')
            .unwrap_err()
            .message()
    };
    assert_eq!(
        refusal(2, vec![entry("a")]),
        "Unsupported workspace config version: 2 (supported: 1)."
    );
    assert!(refusal(1, Vec::new()).contains("at least one workspace"));
    let many: Vec<WorkspaceConfigEntry> = (0..=MAX_REGISTRY_WORKSPACES)
        .map(|k| entry(&format!("w{k:02}")))
        .collect();
    assert!(refusal(1, many).contains("at most 64"));
    assert!(refusal(1, vec![entry("Bad")]).contains("invalid workspace id 'Bad'"));
}

#[test]
fn the_separator_of_a_single_workspace_is_kept() {
    let mut found = root(true, Ok(full("/t/ws")), true);
    found.separator = b'\\';
    let state = start(&cli(Some("/t/ws"), None), found).unwrap();
    assert_eq!(state.workspace().display_relative(&full("/t/ws/a/b")), "a\\b");
}

#[test]
fn file_faults_name_the_file() {
    let disk = Disk::new(&["/t/ws"]);
    let load = |content: Result<String, String>| {
        WorkspaceRegistry::from_file("/etc/ws.toml", content, b'/', &|root: &str| {
            disk.facts(root)
        })
    };
    let err = load(Err("Permission denied".to_string())).unwrap_err();
    assert_eq!(
        err.message(),
        "Failed to read workspace config '/etc/ws.toml': Permission denied"
    );
    let err = load(Ok("version = 7\nworkspaces = {}\n".to_string())).unwrap_err();
    assert_eq!(
        err.message(),
        "in workspace config '/etc/ws.toml': Unsupported workspace config version: 7 (supported: 1)."
    );
    assert!(load(Ok(config_for(&[("ws", "/t/ws", "")]))).is_ok());
}

#[test]
fn nothing_is_probed_before_the_declarations_pass() {
    let probed = Cell::new(0);
    let result = WorkspaceRegistry::from_toml_str(
        "version = 1\n\n[workspaces.a]\nroot = '/t/a'\n\n[workspaces.'B']\nroot = '/t/b'\n",
        b'/',
        &|root: &str| {
            probed.set(probed.get() + 1);
            Disk::new(&[]).facts(root)
        },
    );
    assert!(result.is_err());
    assert_eq!(probed.get(), 0);
}

// ---------------------------------------------------------------------------
// The state
// ---------------------------------------------------------------------------

#[test]
fn registry_mode_state_carries_immutable_registry() {
    let disk = Disk::new(&["/t/ws"]);
    let registry = disk.build_ok("version = 1\n\n[workspaces.demo]\nroot = '/t/ws'\n");
    let state = AppState::from_registry(registry);
    match state.mode() {
        RuntimeMode::WorkspaceRegistry(reg) => {
            let ctx = reg.get(&id("demo")).expect("registered");
            assert_eq!(ctx.id().unwrap().as_str(), "demo");
            assert!(!ctx.permissions().write);
        }
        _ => panic!("expected registry mode"),
    }
    assert_eq!(state.registry().iter_sorted().len(), 1);
}

fn cli(workspace: Option<&str>, workspace_config: Option<&str>) -> Cli {
    Cli {
        workspace: workspace.map(PathBuf::from),
        write: false,
        execute: false,
        allow_shell: false,
        workspace_config: workspace_config.map(PathBuf::from),
        transport: TransportChoice::Stdio,
        host: "127.0.0.1".to_string(),
        port: 8787,
        log_level: None,
    }
}

fn start(cli: &Cli, root: SingleRoot) -> Result<AppState, SetupError> {
    let held = Cell::new(Some(root));
    AppState::from_cli(
        cli,
        &|_: &PathBuf| Disk::new(&["/t/ws"]).build(&config_for(&[("ws", "/t/ws", "")])),
        &|_: Option<&PathBuf>| held.take().unwrap(),
    )
}

fn root(exists: bool, canonical: Result<FullPath, String>, directory: bool) -> SingleRoot {
    SingleRoot {
        shown: "/t/ws".to_string(),
        exists,
        canonical,
        directory,
        separator: b'/',
    }
}

#[test]
fn the_command_line_decides_the_mode() {
    let good = || root(true, Ok(full("/t/ws")), true);
    let mut single = cli(Some("/t/ws"), None);
    single.write = true;
    let state = start(&single, good()).unwrap();
    assert!(matches!(state.mode(), RuntimeMode::SingleWorkspace(_)));
    assert!(state.permissions().write);
    assert!(!state.permissions().execute);

    let state = start(&cli(None, Some("ws.toml")), good()).unwrap();
    assert!(matches!(state.mode(), RuntimeMode::WorkspaceRegistry(_)));

    let mut shell = cli(None, None);
    shell.allow_shell = true;
    let err = start(&shell, good()).unwrap_err().message();
    assert!(err.contains("--allow-shell requires --exec"), "{err}");
    assert!(start(&cli(Some("."), Some("ws.toml")), good()).is_err());
}

#[test]
fn unusable_single_roots_are_reported() {
    let refusal = |r: SingleRoot| start(&cli(Some("/t/ws"), None), r).unwrap_err().message();
    assert_eq!(
        refusal(root(false, Err(String::new()), false)),
        "Workspace root '/t/ws' does not exist."
    );
    assert_eq!(
        refusal(root(true, Err("loop".to_string()), false)),
        "Failed to resolve workspace root '/t/ws': loop"
    );
    assert_eq!(
        refusal(root(true, Ok(full("/t/ws")), false)),
        "Workspace root '/t/ws' is not a directory."
    );
}

// ---------------------------------------------------------------------------
// Selection
// ---------------------------------------------------------------------------

fn registry_of(names: &[&str]) -> WorkspaceRegistry {
    let roots: Vec<String> = names.iter().map(|n| format!("/srv/base/{n}")).collect();
    let dirs: Vec<&str> = roots.iter().map(|r| r.as_str()).collect();
    let entries: Vec<(&str, &str, &str)> = names
        .iter()
        .zip(roots.iter())
        .map(|(n, r)| (*n, r.as_str(), "write = true\nexec = true\n"))
        .collect();
    Disk::new(&dirs).build_ok(&config_for(&entries))
}

fn no_repository(_: &GitInvocation) -> ToolResult<GitOutput> {
    Err(ToolError::msg("git exited with code 128: fatal"))
}

fn info_args(name: &str) -> WorkspaceInfoArgs {
    WorkspaceInfoArgs {
        workspace: id(name),
    }
}

#[test]
fn list_workspaces_is_sorted_and_hides_roots() {
    let registry = registry_of(&["zeta", "alpha", "middle"]);
    let listed = list_workspaces(&registry);
    let ids: Vec<&str> = listed.iter().map(|w| w.id.as_str()).collect();
    assert_eq!(ids, ["alpha", "middle", "zeta"]);
    for entry in &listed {
        assert!(entry.permissions.read);
        assert!(entry.permissions.write);
        assert!(entry.permissions.execute);
        assert!(!entry.permissions.shell);
    }
    let rendered = format!("{listed:?}");
    assert!(!rendered.contains("/srv/base"), "{rendered}");
    assert!(!rendered.contains("root"), "{rendered}");
}

#[test]
fn registry_workspace_info_reports_requested_id_without_paths() {
    let registry = registry_of(&["beta", "alpha"]);
    for name in ["alpha", "beta"] {
        let info = workspace_info(&registry, &info_args(name), &no_repository).unwrap();
        match &info.identity {
            ReportedIdentity::Logical(told) => assert_eq!(told, name),
            other => panic!("paths disclosed: {other:?}"),
        }
        assert!(info.permissions.write);
        assert!(!info.is_repository);
        assert!(!format!("{info:?}").contains("/srv/base"));
    }
}

#[test]
fn unknown_workspace_error_is_bounded() {
    let registry = registry_of(&["beta", "alpha"]);
    let message = workspace_info(&registry, &info_args("does-not-exist"), &no_repository)
        .unwrap_err()
        .message();
    assert!(
        message.contains("Unknown workspace 'does-not-exist'"),
        "{message}"
    );
    assert!(
        message.contains("Use list_workspaces to discover valid workspace IDs"),
        "{message}"
    );
    assert!(
        !message.contains("alpha") && !message.contains("beta"),
        "{message}"
    );
    assert!(!message.contains("/srv/base"), "{message}");
}

#[test]
fn list_workspaces_at_maximum_registry_size_stays_within_output_bound() {
    let names: Vec<String> = (0..MAX_REGISTRY_WORKSPACES)
        .map(|i| format!("a{i:03}{}", "-".repeat(60)))
        .collect();
    let roots: Vec<String> = (0..MAX_REGISTRY_WORKSPACES)
        .map(|i| format!("/t/dir{i:02}"))
        .collect();
    let dirs: Vec<&str> = roots.iter().map(|r| r.as_str()).collect();
    let entries: Vec<(&str, &str, &str)> = names
        .iter()
        .zip(roots.iter())
        .map(|(n, r)| {
            (
                n.as_str(),
                r.as_str(),
                "write = true\nexec = true\nallow_shell = true\n",
            )
        })
        .collect();
    let registry = Disk::new(&dirs).build_ok(&config_for(&entries));
    let listed = list_workspaces(&registry);
    assert_eq!(listed.len(), MAX_REGISTRY_WORKSPACES);
    assert_eq!(listed[0].id, format!("a000{}", "-".repeat(60)));
    assert_eq!(
        listed[MAX_REGISTRY_WORKSPACES - 1].id,
        format!("a{:03}{}", MAX_REGISTRY_WORKSPACES - 1, "-".repeat(60))
    );
    for entry in &listed {
        assert!(entry.permissions.shell);
    }
    let rendered = format!("{listed:?}");
    assert!(!rendered.contains("/t/"), "{rendered}");
    assert!(rendered.len() < 64 * 1024);
}

#[test]
fn consecutive_lookups_are_independent() {
    let registry = registry_of(&["beta", "alpha"]);
    let told = |name: &str| {
        match workspace_info(&registry, &info_args(name), &no_repository)
            .unwrap()
            .identity
        {
            ReportedIdentity::Logical(told) => told,
            other => panic!("paths disclosed: {other:?}"),
        }
    };
    assert_eq!(told("alpha"), "alpha");
    assert_eq!(told("beta"), "beta");
}

#[test]
fn gates_belong_to_the_selected_workspace() {
    let disk = Disk::new(&["/t/open", "/t/shut", "/t/half"]);
    let registry = disk.build_ok(&config_for(&[
        (
            "open",
            "/t/open",
            "write = true\nexec = true\nallow_shell = true",
        ),
        ("shut", "/t/shut", ""),
        ("half", "/t/half", "exec = true"),
    ]));
    assert!(select_for_patch(&registry, &id("open")).is_ok());
    assert!(select_for_command(&registry, &id("open"), true).is_ok());
    assert!(select_for_command(&registry, &id("half"), false).is_ok());
    let message = |r: ToolResult<_>| match r {
        Ok(_) => panic!("not refused"),
        Err(e) => {
            let e: ToolError = e;
            e.message()
        }
    };
    assert_eq!(
        message(select_for_patch(&registry, &id("shut"))),
        "Workspace 'shut' does not allow file writes."
    );
    assert_eq!(
        message(select_for_command(&registry, &id("shut"), true)),
        "Workspace 'shut' does not allow command execution."
    );
    assert_eq!(
        message(select_for_command(&registry, &id("half"), true)),
        "Workspace 'half' does not allow shell execution."
    );
    assert_eq!(
        message(select_for_patch(&registry, &id("gone"))),
        "Unknown workspace 'gone'. Use list_workspaces to discover valid workspace IDs."
    );
}

// ---------------------------------------------------------------------------
// Git in registry mode
// ---------------------------------------------------------------------------

fn nothing_there(_: &FullPath) -> Located {
    Located::Nothing
}

fn no_canonical(_: &str) -> Option<String> {
    None
}

#[test]
fn registry_unknown_and_malformed_ids_reach_no_git_process() {
    let registry = registry_of(&["alpha"]);
    let started = Cell::new(0);
    let run = |_: &GitInvocation| -> ToolResult<GitOutput> {
        started.set(started.get() + 1);
        Err(ToolError::msg("not reached"))
    };
    let err = registry_git_status(
        &registry,
        &Limits::default(),
        &RegistryGitStatusArgs {
            workspace: id("does-not-exist"),
            args: GitStatusArgs {},
        },
        &run,
        &no_canonical,
    )
    .unwrap_err()
    .message();
    assert!(err.contains("Unknown workspace 'does-not-exist'"), "{err}");
    let err = registry_git_diff(
        &registry,
        &Limits::default(),
        &RegistryGitDiffArgs {
            workspace: id("does-not-exist"),
            args: GitDiffArgs {
                staged: false,
                path: None,
            },
        },
        &run,
        &no_canonical,
        &nothing_there,
    )
    .unwrap_err()
    .message();
    assert!(err.contains("Unknown workspace 'does-not-exist'"), "{err}");
    assert_eq!(started.get(), 0);
    assert!(WorkspaceId::parse("../alpha").is_err());
}

#[test]
fn registry_non_repository_error_presents_dot_not_the_root() {
    let registry = registry_of(&["alpha"]);
    let err = registry_git_status(
        &registry,
        &Limits::default(),
        &RegistryGitStatusArgs {
            workspace: id("alpha"),
            args: GitStatusArgs {},
        },
        &no_repository,
        &no_canonical,
    )
    .unwrap_err()
    .message();
    assert_eq!(
        err,
        "'.' does not appear to be inside a Git working tree."
    );
}

#[test]
fn registry_status_and_diff_are_scoped_and_carry_provenance() {
    let registry = registry_of(&["alpha", "beta"]);
    let run = |invocation: &GitInvocation| -> ToolResult<GitOutput> {
        let stdout = if invocation.args[0] == "rev-parse" {
            "true\n".to_string()
        } else {
            format!("{} in {}", invocation.args.join(" "), shown(&invocation.root))
        };
        Ok(GitOutput {
            stdout,
            stdout_truncated: false,
        })
    };
    for name in ["alpha", "beta"] {
        let status = registry_git_status(
            &registry,
            &Limits::default(),
            &RegistryGitStatusArgs {
                workspace: id(name),
                args: GitStatusArgs {},
            },
            &run,
            &no_canonical,
        )
        .unwrap();
        assert_eq!(status.workspace, name);
        assert_eq!(
            status.value.output,
            format!("--no-pager status --short --branch -- . in /srv/base/{name}")
        );
        let diff = registry_git_diff(
            &registry,
            &Limits::default(),
            &RegistryGitDiffArgs {
                workspace: id(name),
                args: GitDiffArgs {
                    staged: true,
                    path: Some("src/../lib.rs".to_string()),
                },
            },
            &run,
            &no_canonical,
            &|path: &FullPath| {
                if path.names.len() < 3 {
                    Located::Canonical(path.duplicate())
                } else {
                    Located::Nothing
                }
            },
        )
        .unwrap();
        assert_eq!(diff.workspace, name);
        assert_eq!(diff.value.path, Some("lib.rs".to_string()));
        assert_eq!(
            diff.value.diff,
            format!(
                "--no-pager diff --no-color --no-ext-diff --no-textconv --relative --cached -- lib.rs in /srv/base/{name}"
            )
        );
    }
}

#[test]
fn registry_diff_path_is_validated_against_the_selected_workspace() {
    let registry = registry_of(&["alpha", "beta"]);
    let started = Cell::new(0);
    let run = |invocation: &GitInvocation| -> ToolResult<GitOutput> {
        if invocation.args[0] != "rev-parse" {
            started.set(started.get() + 1);
        }
        Ok(GitOutput {
            stdout: "true".to_string(),
            stdout_truncated: false,
        })
    };
    let err = registry_git_diff(
        &registry,
        &Limits::default(),
        &RegistryGitDiffArgs {
            workspace: id("alpha"),
            args: GitDiffArgs {
                staged: false,
                path: Some("../beta/secret".to_string()),
            },
        },
        &run,
        &no_canonical,
        &nothing_there,
    )
    .unwrap_err()
    .message();
    assert_eq!(
        err,
        "Invalid diff path '../beta/secret': Path resolves outside the configured workspace: ../beta/secret"
    );
    assert_eq!(started.get(), 0);
}

#[test]
fn git_error_presentation_scrubs_the_parent_repository_root() {
    let registry = registry_of(&["alpha"]);
    let run = |invocation: &GitInvocation| -> ToolResult<GitOutput> {
        let told = |s: &str| {
            Ok(GitOutput {
                stdout: s.to_string(),
                stdout_truncated: false,
            })
        };
        if invocation.args[0] == "rev-parse" {
            told("true")
        } else if invocation.args[1] == "rev-parse" {
            told("/srv/base\n")
        } else {
            Err(ToolError::msg(
                "fatal: broken objects under /srv/base/objects in '/srv/base/alpha' not /srv/base-2",
            ))
        }
    };
    let err = registry_git_status(
        &registry,
        &Limits::default(),
        &RegistryGitStatusArgs {
            workspace: id("alpha"),
            args: GitStatusArgs {},
        },
        &run,
        &|path: &str| Some(path.to_string()),
    )
    .unwrap_err()
    .message();
    assert_eq!(
        err,
        "fatal: broken objects under ./objects in '.' not /srv/base-2"
    );
}

//! Path resolution and the tools that work on files, on a disk kept in memory.
use grep_searcher::{BinaryDetection, Searcher, SearcherBuilder, Sink, SinkMatch};
use nian_workspace::config::{AppState, Limits, RuntimeMode};
use nian_workspace::error::{ToolError, ToolResult};
use nian_workspace::permissions::Permissions;
use nian_workspace::tools::files::{
    check_readable, entry_is_visible, plan_listing, plan_read, read_window, EntryKind, FileFacts,
    FileWindow, FoundEntry, ListCollector, ListFilesArgs, ListPlan, Listing, PlaceKind,
    ReadFileArgs, ReadSession,
};
use nian_workspace::tools::command::{plan_command, Invocation, RunCommandArgs};
use nian_workspace::tools::glob::PathFilter;
use nian_workspace::tools::patch::{
    parse_patch, plan_patch, temp_file_name, write_failed, ApplyPatchArgs, TargetContent, WriteStep,
};
use nian_workspace::tools::search::{
    entry_admissible, plan_search, SearchArgs, SearchCollector, SearchPlan, SearchReport, Territory,
};
use nian_workspace::workspace::{FullPath, Located, PathPresentation, Workspace};

// ---------------------------------------------------------------------------
// A disk in memory
// ---------------------------------------------------------------------------

#[derive(Clone)]
enum Node {
    Dir,
    File(Vec<u8>),
    Link(String),
}

struct Disk {
    nodes: Vec<(String, Node)>,
}

fn full(path: &str) -> FullPath {
    FullPath {
        prefix: Vec::new(),
        names: path
            .split('/')
            .filter(|name| !name.is_empty())
            .map(|name| name.as_bytes().to_vec())
            .collect(),
    }
}

fn shown(path: &FullPath) -> String {
    let names: Vec<String> = path
        .names
        .iter()
        .map(|name| String::from_utf8(name.clone()).unwrap())
        .collect();
    format!("/{}", names.join("/"))
}

impl Disk {
    fn new() -> Disk {
        let mut disk = Disk { nodes: Vec::new() };
        disk.put("/", Node::Dir);
        disk.put("/etc/passwd", Node::File(b"root".to_vec()));
        disk.put("/home/me/ws", Node::Dir);
        disk
    }

    fn with(files: &[&str]) -> Disk {
        let mut disk = Disk::new();
        for rel in files {
            disk.write(rel, b"contents\n");
        }
        disk
    }

    fn write(&mut self, rel: &str, bytes: &[u8]) {
        self.put(&format!("/home/me/ws/{rel}"), Node::File(bytes.to_vec()));
    }

    fn dir(&mut self, rel: &str) {
        self.put(&format!("/home/me/ws/{rel}"), Node::Dir);
    }

    fn link(&mut self, rel: &str, target: &str) {
        self.put(&format!("/home/me/ws/{rel}"), Node::Link(target.to_string()));
    }

    fn put(&mut self, path: &str, node: Node) {
        if let Some(at) = path.rfind('/') {
            if at > 0 && self.node(&path[..at]).is_none() {
                self.put(&path[..at], Node::Dir);
            }
        }
        self.nodes.retain(|(p, _)| p != path);
        self.nodes.push((path.to_string(), node));
    }

    fn node(&self, path: &str) -> Option<&Node> {
        self.nodes.iter().find(|(p, _)| p == path).map(|(_, n)| n)
    }

    fn physical(&self, path: &str) -> Option<String> {
        let mut at = String::new();
        let mut names: Vec<String> = path.split('/').rev().map(String::from).collect();
        let mut hops = 0;
        while let Some(name) = names.pop() {
            if name.is_empty() || name == "." {
                continue;
            }
            if name == ".." {
                at.truncate(at.rfind('/').unwrap_or(0));
                continue;
            }
            let next = format!("{at}/{name}");
            match self.node(&next)? {
                Node::Link(target) => {
                    hops += 1;
                    if hops > 8 {
                        return None;
                    }
                    if target.starts_with('/') {
                        at = String::new();
                    }
                    names.extend(target.split('/').rev().map(String::from));
                }
                _ => at = next,
            }
        }
        Some(if at.is_empty() { "/".to_string() } else { at })
    }

    fn locate(&self, path: &FullPath) -> Located {
        let path = shown(path);
        if let Some(physical) = self.physical(&path) {
            return Located::Canonical(full(&physical));
        }
        let at = path.rfind('/').unwrap();
        let parent = match self.physical(&path[..at]) {
            Some(parent) => parent,
            None => return Located::Nothing,
        };
        match self.node(&format!("{}/{}", parent.trim_end_matches('/'), &path[at + 1..])) {
            Some(Node::Link(_)) => Located::BrokenLink,
            _ => Located::Nothing,
        }
    }

    fn get(&self, path: &FullPath) -> Option<&Node> {
        let physical = self.physical(&shown(path))?;
        self.node(&physical)
    }

    fn resolve(&self, ws: &Workspace, requested: Option<&str>) -> ToolResult<FullPath> {
        ws.resolve(requested, &|p: &FullPath| self.locate(p))
    }

    fn children(&self, path: &str) -> Vec<(String, Node)> {
        let mut found: Vec<(String, Node)> = self
            .nodes
            .iter()
            .filter(|(p, _)| {
                p.len() > path.len() + 1
                    && p.starts_with(path)
                    && p.as_bytes()[path.len()] == b'/'
                    && !p[path.len() + 1..].contains('/')
            })
            .map(|(p, n)| (p[path.len() + 1..].to_string(), n.clone()))
            .collect();
        found.sort_by(|a, b| a.0.cmp(&b.0));
        found
    }
}

fn workspace() -> Workspace {
    Workspace::open("/home/me/ws", Ok(full("/home/me/ws")), b'/').unwrap()
}

fn state(permissions: Permissions, limits: Limits) -> AppState {
    AppState::new(workspace(), permissions, limits)
}

// ---------------------------------------------------------------------------
// Resolution
// ---------------------------------------------------------------------------

#[test]
fn plain_relative_paths_resolve() {
    let disk = Disk::with(&["src/main.rs"]);
    let resolved = disk.resolve(&workspace(), Some("src/main.rs")).unwrap();
    assert_eq!(shown(&resolved), "/home/me/ws/src/main.rs");
}

#[test]
fn dot_components_are_collapsed() {
    let disk = Disk::with(&["src/main.rs"]);
    let resolved = disk
        .resolve(&workspace(), Some("./src/../src/./main.rs"))
        .unwrap();
    assert_eq!(shown(&resolved), "/home/me/ws/src/main.rs");
}

#[test]
fn nested_directories_inside_remain_inside() {
    let disk = Disk::with(&["a/b/c.txt"]);
    let resolved = disk.resolve(&workspace(), Some("a/b/../b/c.txt")).unwrap();
    assert!(shown(&resolved).ends_with("a/b/c.txt"));
}

#[test]
fn single_parent_traversal_outside_is_rejected() {
    let disk = Disk::new();
    let err = disk.resolve(&workspace(), Some("../escape")).unwrap_err();
    assert_eq!(
        err.message(),
        "Path resolves outside the configured workspace: ../escape"
    );
}

#[test]
fn deep_parent_traversal_is_rejected() {
    let disk = Disk::new();
    assert!(disk
        .resolve(&workspace(), Some("../../.ssh/id_ed25519"))
        .is_err());
}

#[test]
fn traversal_then_back_inside_is_allowed_only_if_it_stays_in() {
    let disk = Disk::with(&["in/a.txt", "in/b.txt"]);
    let resolved = disk.resolve(&workspace(), Some("in/../in/b.txt")).unwrap();
    assert!(shown(&resolved).ends_with("in/b.txt"));
    assert!(disk
        .resolve(&workspace(), Some("in/../../dir/a.txt"))
        .is_err());
}

#[test]
fn absolute_path_outside_workspace_is_rejected() {
    let disk = Disk::new();
    assert!(disk.resolve(&workspace(), Some("/etc/passwd")).is_err());
}

#[test]
fn absolute_path_inside_workspace_resolves() {
    let disk = Disk::with(&["file.txt"]);
    let resolved = disk
        .resolve(&workspace(), Some("/home/me/ws/file.txt"))
        .unwrap();
    assert_eq!(shown(&resolved), "/home/me/ws/file.txt");
}

#[test]
fn missing_file_under_existing_directory_resolves_lazily() {
    let disk = Disk::with(&["dir"]);
    let resolved = disk.resolve(&workspace(), Some("dir/new-file.rs")).unwrap();
    assert_eq!(shown(&resolved), "/home/me/ws/dir/new-file.rs");
    assert!(disk.get(&resolved).is_none());
}

#[test]
fn missing_file_under_missing_parents_resolves_lazily() {
    let disk = Disk::new();
    let resolved = disk.resolve(&workspace(), Some("a/b/c/d.txt")).unwrap();
    assert_eq!(shown(&resolved), "/home/me/ws/a/b/c/d.txt");
}

#[test]
fn symlink_escape_to_outside_target_is_rejected() {
    let mut disk = Disk::new();
    disk.link("evil_root", "/");
    assert!(
        disk.resolve(&workspace(), Some("evil_root/etc/passwd"))
            .is_err(),
        "symlink escape via existing target must be rejected"
    );
    disk.link("up", "..");
    assert!(disk.resolve(&workspace(), Some("up/secret")).is_err());
}

#[test]
fn symlink_to_inside_target_is_allowed() {
    let mut disk = Disk::with(&["real/data.txt"]);
    disk.link("alias", "/home/me/ws/real");
    let ws = workspace();
    let resolved = disk.resolve(&ws, Some("alias/data.txt")).unwrap();
    assert_eq!(shown(&resolved), "/home/me/ws/real/data.txt");
    assert!(resolved.starts_with(ws.root()));
}

#[test]
fn dangling_symlink_to_missing_outside_is_rejected_on_existing_spine() {
    let mut disk = Disk::new();
    disk.link("rootlink", "/");
    assert!(disk
        .resolve(&workspace(), Some("rootlink/nonexistent/deep/file"))
        .is_err());
}

#[test]
fn links_that_lead_nowhere_are_rejected() {
    let mut disk = Disk::with(&["real/data.txt"]);
    disk.link("link", "/elsewhere/missing");
    disk.link("loop", "loop");
    for requested in ["link", "link/deeper", "loop", "real/../link"] {
        let err = disk.resolve(&workspace(), Some(requested)).unwrap_err();
        assert_eq!(
            err.message(),
            format!("Path resolves outside the configured workspace: {requested}")
        );
    }
    assert!(disk.resolve(&workspace(), Some("real/missing")).is_ok());
}

#[test]
fn shown_paths_resolve_back() {
    let mut disk = Disk::with(&["src/main.rs"]);
    disk.link("alias", "src");
    let ws = workspace();
    for requested in ["src/main.rs", "alias/main.rs", "src/new/file", "", "/home/me/ws/src"] {
        let path = disk.resolve(&ws, Some(requested)).unwrap();
        let again = disk.resolve(&ws, Some(&ws.display_relative(&path))).unwrap();
        assert_eq!(shown(&again), shown(&path));
    }
}

#[test]
fn any_name_resolves_back() {
    if std::path::MAIN_SEPARATOR != '/' {
        return;
    }
    let disk = Disk::with(&["a:b/c\\d", "x: y/z", "C:/drive", "\\\\host/share"]);
    let ws = workspace();
    for requested in ["a:b/c\\d", "x: y/z", "C:/drive", "\\\\host/share", "a:b/new\\"] {
        let path = disk.resolve(&ws, Some(requested)).unwrap();
        assert_eq!(shown(&path), format!("/home/me/ws/{requested}"));
        let again = disk.resolve(&ws, Some(&ws.display_relative(&path))).unwrap();
        assert_eq!(shown(&again), shown(&path));
    }
}

#[test]
fn absolute_requests_are_not_looked_for_below_the_root() {
    let disk = Disk::with(&["etc/passwd"]);
    assert!(disk.resolve(&workspace(), Some("/etc/passwd")).is_err());
    let inside = disk.resolve(&workspace(), Some("/home/me/ws/etc/passwd")).unwrap();
    assert_eq!(shown(&inside), "/home/me/ws/etc/passwd");
}

#[test]
fn nul_bytes_are_rejected() {
    let disk = Disk::new();
    let err = disk.resolve(&workspace(), Some("bad\0name")).unwrap_err();
    assert_eq!(
        err.message(),
        "Invalid path: NUL bytes are not allowed in workspace paths."
    );
}

#[test]
fn empty_and_dot_requests_return_the_root() {
    let disk = Disk::new();
    let ws = workspace();
    for request in [None, Some(""), Some("."), Some("  ")] {
        let resolved = disk.resolve(&ws, request).unwrap();
        assert_eq!(shown(&resolved), shown(ws.root()));
    }
}

#[test]
fn display_relative_strips_prefix() {
    let disk = Disk::with(&["src/main.rs"]);
    let ws = workspace();
    let p = disk.resolve(&ws, Some("src/main.rs")).unwrap();
    assert_eq!(ws.display_relative(&p), "src/main.rs");
}

#[test]
fn roots_are_shown_by_mode() {
    let ws = workspace();
    let single = PathPresentation::SingleCompatible;
    let registry = PathPresentation::RegistryRelative;
    assert_eq!(ws.display_relative_as(ws.root(), single), "/home/me/ws");
    assert_eq!(ws.display_relative_as(ws.root(), registry), ".");
    let below = full("/home/me/ws/src/main.rs");
    assert_eq!(ws.display_relative_as(&below, single), "src/main.rs");
    assert_eq!(ws.display_relative_as(&below, registry), "src/main.rs");
    assert_eq!(ws.name(), "ws");
}

#[test]
fn nothing_that_exists_exhausts_the_components() {
    let ws = workspace();
    let err = ws.resolve(Some("a/b"), &|_: &FullPath| Located::Nothing).unwrap_err();
    assert_eq!(
        err.message(),
        "Failed to resolve path: exhausted all path components."
    );
}

#[test]
fn unreadable_roots_are_reported() {
    let err = Workspace::open("/gone", Err("No such file or directory".to_string()), b'/')
        .map(|_| ())
        .unwrap_err();
    assert!(err.message().contains("/gone"), "{}", err.message());
    assert!(err.message().contains("No such file"), "{}", err.message());
}

#[test]
fn new_wraps_single_workspace_context_without_id() {
    let state = AppState::new(workspace(), Permissions::default(), Limits::default());
    assert!(matches!(
        state.mode(),
        RuntimeMode::SingleWorkspace(_)
    ));
    assert!(state.single_workspace().id().is_none());
    assert!(!state.permissions().write);
    assert_eq!(shown(state.workspace().root()), "/home/me/ws");
}

// ---------------------------------------------------------------------------
// read_file
// ---------------------------------------------------------------------------

fn small() -> Limits {
    Limits {
        max_read_bytes: 200,
        ..Limits::default()
    }
}

fn sample(content: &[u8]) -> Disk {
    let mut disk = Disk::new();
    disk.write("sample.txt", content);
    disk
}

fn read_file(disk: &Disk, state: &AppState, args: ReadFileArgs) -> ToolResult<FileWindow> {
    let plan = plan_read(
        state.single_workspace(),
        state.limits(),
        PathPresentation::SingleCompatible,
        &args,
        &|p: &FullPath| disk.locate(p),
        &|p: &FullPath| match disk.get(p) {
            None => FileFacts {
                directory: Err("No such file or directory (os error 2)".to_string()),
                head: Err(String::new()),
            },
            Some(Node::File(bytes)) => FileFacts {
                directory: Ok(false),
                head: Ok(bytes.iter().take(8 * 1024).copied().collect()),
            },
            Some(_) => FileFacts {
                directory: Ok(true),
                head: Err(String::new()),
            },
        },
    )?;
    let bytes = match disk.get(&plan.path) {
        Some(Node::File(bytes)) => bytes,
        _ => panic!("no such file"),
    };
    let mut session = ReadSession::open(&plan.window);
    for chunk in bytes.chunks(4096) {
        if !session.wants_more() {
            break;
        }
        session.feed(chunk);
    }
    Ok(session.finish())
}

fn args(path: &str, start_line: Option<u64>, end_line: Option<u64>) -> ReadFileArgs {
    ReadFileArgs {
        path: path.to_string(),
        start_line,
        end_line,
    }
}

fn read_sample(content: &[u8], start: Option<u64>, end: Option<u64>) -> ToolResult<FileWindow> {
    let disk = sample(content);
    read_file(
        &disk,
        &state(Permissions::default(), small()),
        args("sample.txt", start, end),
    )
}

#[test]
fn reads_full_small_file_with_numbers() {
    let out = read_sample(b"alpha\nbeta\ngamma\n", None, None).unwrap();
    assert_eq!(out.lines.len(), 3);
    assert_eq!(out.lines[0], "1: alpha");
    assert_eq!(out.lines[2], "3: gamma");
    assert!(!out.truncated);
    assert!(!out.has_more_lines);
    assert_eq!(out.start_line, Some(1));
    assert_eq!(out.end_line, Some(3));
}

#[test]
fn honours_explicit_ranges() {
    let content = (1..=100).fold(String::new(), |mut acc, i| {
        acc.push_str(&format!("line{i}\n"));
        acc
    });
    let out = read_sample(content.as_bytes(), Some(40), Some(45)).unwrap();
    assert_eq!(out.start_line, Some(40));
    assert_eq!(out.end_line, Some(45));
    assert_eq!(out.lines.len(), 6);
}

#[test]
fn flags_more_lines_when_range_ends_early() {
    let content = (1..=50).fold(String::new(), |mut acc, i| {
        acc.push_str(&format!("row {i}\n"));
        acc
    });
    let out = read_sample(content.as_bytes(), Some(1), Some(3)).unwrap();
    assert!(!out.truncated);
    assert!(out.has_more_lines);
}

#[test]
fn truncates_large_files_by_byte_budget() {
    let long_line = "x".repeat(500);
    let content = format!("{long_line}\n{long_line}\n{long_line}\n");
    let out = read_sample(content.as_bytes(), None, None).unwrap();
    assert!(out.truncated);
    assert!(out.has_more_lines);
    assert!(out.lines.len() < 3);
}

#[test]
fn rejects_binary_files() {
    let bytes: &[u8] = &[b'P', b'N', b'G', 0x89, 0x00, 0x00, 0x00, 0x0D, 0x49, 0x48];
    let err = read_sample(bytes, None, None).unwrap_err();
    assert!(err.message().contains("binary"));
}

#[test]
fn rejects_directories_with_helpful_error() {
    let mut disk = Disk::new();
    disk.dir("sub");
    let err = read_file(
        &disk,
        &state(Permissions::default(), small()),
        args("sub", None, None),
    )
    .unwrap_err();
    assert_eq!(
        err.message(),
        "'sub' is a directory; use list_files instead."
    );
}

#[test]
fn reports_missing_files_via_io_error_text() {
    let err = read_file(
        &sample(b"x\n"),
        &state(Permissions::default(), small()),
        args("missing.txt", None, None),
    )
    .unwrap_err();
    assert!(err.message().contains("missing.txt"));
}

#[test]
fn cannot_escape_workspace_via_read_args() {
    let err = read_file(
        &sample(b"x\n"),
        &state(Permissions::default(), small()),
        args("../../etc/passwd", None, None),
    )
    .unwrap_err();
    assert!(err.message().contains("outside the configured workspace"));
}

#[test]
fn very_long_single_line_stays_memory_bounded() {
    let huge = "z".repeat(64 * 1024 * 1024);
    let out = read_sample(huge.as_bytes(), None, None).unwrap();
    assert_eq!(out.lines.len(), 1);
    assert!(out.truncated);
    assert!(out.lines[0].len() < small().max_read_bytes + 64);
}

#[test]
fn long_line_in_middle_is_clipped_without_losing_other_lines() {
    let big = "y".repeat(3 * 1024 * 1024);
    let content = format!("first\n{big}\nlast\n");
    let out = read_sample(content.as_bytes(), Some(1), Some(1)).unwrap();
    assert_eq!(out.lines[0], "1: first");
    let out = read_sample(content.as_bytes(), Some(2), Some(2)).unwrap();
    assert!(
        out.lines[0].starts_with("2: "),
        "oversized line rendered wrong"
    );
    assert!(out.lines[0].len() < small().max_read_bytes + 64);
}

#[test]
fn clipped_lines_are_reported_without_ending_the_window() {
    let content = format!("{}\nshort\n", "x".repeat(3000));
    let out = read_file(
        &sample(content.as_bytes()),
        &state(Permissions::default(), Limits::default()),
        args("sample.txt", None, None),
    )
    .unwrap();
    assert_eq!(
        out.lines,
        vec![format!("1: {}[…]", "x".repeat(2400)), "2: short".to_string()]
    );
    assert!(out.truncated);
    assert!(!out.has_more_lines);
}

#[test]
fn lines_over_the_source_cap_are_reported() {
    let limits = Limits {
        max_source_line_bytes: 10,
        ..Limits::default()
    };
    let out = read_file(
        &sample(b"0123456789\n0123456789a\nend\n"),
        &state(Permissions::default(), limits),
        args("sample.txt", Some(2), None),
    )
    .unwrap();
    assert_eq!(out.lines, ["2: 0123456789", "3: end"]);
    assert!(out.truncated);
    let limits = Limits {
        max_source_line_bytes: 10,
        ..Limits::default()
    };
    let out = read_file(
        &sample(b"0123456789\n0123456789a\nend\n"),
        &state(Permissions::default(), limits),
        args("sample.txt", Some(1), Some(1)),
    )
    .unwrap();
    assert!(!out.truncated);
}

#[test]
fn undecodable_bytes_are_replaced_and_flagged() {
    let out = read_sample(b"ok\nbad \xff byte\n", None, None).unwrap();
    assert_eq!(out.lines[1], "2: bad \u{FFFD} byte");
    assert!(out.lossy_decoding);
    let out = read_sample(b"ok\nbad \xff byte\n", None, Some(1)).unwrap();
    assert!(!out.lossy_decoding);
}

#[test]
fn line_ends_and_missing_ones_read_alike() {
    let out = read_sample(b"one\r\ntwo", None, None).unwrap();
    assert_eq!(out.lines, vec!["1: one".to_string(), "2: two".to_string()]);
    assert!(!out.has_more_lines);
    let out = read_sample(b"", None, None).unwrap();
    assert!(out.lines.is_empty());
    assert_eq!(out.start_line, None);
    assert_eq!(out.end_line, None);
}

#[test]
fn default_windows_span_the_documented_lines() {
    let limits = Limits::default();
    let window = read_window(None, None, &limits);
    assert_eq!((window.first, window.last), (1, 2000));
    let window = read_window(Some(11), None, &limits);
    assert_eq!((window.first, window.last), (11, 1010));
    let window = read_window(Some(11), Some(3), &limits);
    assert_eq!((window.first, window.last), (11, 11));
    let window = read_window(Some(0), Some(7), &limits);
    assert_eq!((window.first, window.last), (1, 7));
    assert_eq!(window.budget, 256 * 1024);
    assert_eq!(window.source_cap, 1024 * 1024);
}

#[test]
fn files_that_cannot_be_opened_are_reported() {
    let facts = FileFacts {
        directory: Ok(false),
        head: Err("Permission denied".to_string()),
    };
    assert_eq!(
        check_readable(&facts, "secret").unwrap_err().message(),
        "Cannot open 'secret': Permission denied"
    );
    assert_eq!(ToolError::io("gone").message(), "I/O error: gone");
}

// ---------------------------------------------------------------------------
// list_files
// ---------------------------------------------------------------------------

fn list(args: &[&str]) -> ListFilesArgs {
    ListFilesArgs {
        path: args.first().map(|p| p.to_string()),
        depth: None,
        include_hidden: false,
        glob: None,
    }
}

fn walk(
    disk: &Disk,
    ws: &Workspace,
    plan: &ListPlan,
    dir: &str,
    depth: usize,
    collector: &mut ListCollector,
) -> bool {
    for (name, node) in disk.children(dir) {
        let is_dir = matches!(node, Node::Dir);
        if !entry_is_visible(depth, &name, is_dir, plan.include_hidden) {
            continue;
        }
        let path = format!("{dir}/{name}");
        let found = FoundEntry {
            path: ws.display_relative(&full(&path)),
            name: Some(name),
            kind: match node {
                Node::Dir => EntryKind::Dir,
                Node::File(_) => EntryKind::File,
                Node::Link(_) => EntryKind::Symlink,
            },
            size: match &node {
                Node::File(bytes) => Some(bytes.len() as u64),
                _ => Some(0),
            },
        };
        if !collector.offer(plan, found) {
            return false;
        }
        if is_dir
            && depth < plan.depth as usize
            && !walk(disk, ws, plan, &path, depth + 1, collector)
        {
            return false;
        }
    }
    true
}

fn list_files(disk: &Disk, state: &AppState, args: ListFilesArgs) -> ToolResult<Listing> {
    let plan = plan_listing(
        state.single_workspace(),
        state.limits(),
        PathPresentation::SingleCompatible,
        &args,
        &|p: &FullPath| disk.locate(p),
        &|p: &FullPath| match disk.get(p) {
            None => PlaceKind::Absent,
            Some(Node::Dir) => PlaceKind::Directory,
            Some(_) => PlaceKind::Other,
        },
    )?;
    let mut collector = ListCollector::new(plan.max_entries);
    walk(
        disk,
        state.workspace(),
        &plan,
        &shown(&plan.dir),
        1,
        &mut collector,
    );
    Ok(collector.finish(&plan))
}

fn paths(listing: &Listing) -> Vec<&str> {
    listing.entries.iter().map(|e| e.path.as_str()).collect()
}

#[test]
fn listing_prunes_hidden_and_generated_dirs() {
    let mut disk = Disk::with(&[".hidden", "src/main.rs"]);
    disk.dir(".git");
    disk.dir("node_modules/pkg");
    disk.dir("src/deep/deeper");
    let mut a = list(&[]);
    a.depth = Some(5);
    let out = list_files(&disk, &state(Permissions::default(), small()), a).unwrap();
    let paths = paths(&out);
    assert!(paths.contains(&"src"));
    assert!(paths.contains(&"src/main.rs"));
    assert!(paths.contains(&"src/deep"));
    assert!(!paths.iter().any(|p| p.starts_with(".git")));
    assert!(!paths.iter().any(|p| p.starts_with("node_modules")));
    assert!(!paths.contains(&".hidden"));
    assert_eq!(out.root, "/home/me/ws");
    assert_eq!(out.depth, 5);
}

#[test]
fn listing_glob_filters_entries() {
    let disk = Disk::with(&["src/a.rs", "src/b.txt"]);
    let mut a = list(&["src"]);
    a.depth = Some(1);
    a.glob = Some("*.rs".into());
    let out = list_files(&disk, &state(Permissions::default(), small()), a).unwrap();
    let paths = paths(&out);
    assert!(paths.contains(&"src/a.rs"));
    assert!(!paths.contains(&"src/b.txt"));
}

#[test]
fn listing_shows_hidden_entries_on_request_but_no_metadata() {
    let disk = Disk::with(&[".hidden", ".git/config", ".config/app", "a"]);
    let mut a = list(&[]);
    a.include_hidden = true;
    let out = list_files(&disk, &state(Permissions::default(), small()), a).unwrap();
    assert_eq!(paths(&out), vec![".config", ".config/app", ".hidden", "a"]);
}

#[test]
fn listing_is_cut_off_at_the_cap() {
    let disk = Disk::with(&["a", "b", "c", "d"]);
    let limits = Limits {
        max_list_entries: 2,
        ..Limits::default()
    };
    let out = list_files(&disk, &state(Permissions::default(), limits), list(&[])).unwrap();
    assert_eq!(paths(&out), vec!["a", "b"]);
    assert!(out.truncated);
    let limits = Limits {
        max_list_entries: 4,
        ..Limits::default()
    };
    let out = list_files(&disk, &state(Permissions::default(), limits), list(&[])).unwrap();
    assert_eq!(out.entries.len(), 4);
    assert!(!out.truncated);
}

#[test]
fn listing_tells_kinds_and_sizes() {
    let mut disk = Disk::with(&["file"]);
    disk.link("link", "file");
    disk.dir("sub");
    let out = list_files(&disk, &state(Permissions::default(), small()), list(&[])).unwrap();
    let told: Vec<(&str, &str, Option<u64>)> = out
        .entries
        .iter()
        .map(|e| (e.path.as_str(), e.kind.label(), e.size))
        .collect();
    assert_eq!(
        told,
        vec![
            ("file", "file", Some(9)),
            ("link", "symlink", None),
            ("sub", "dir", None)
        ]
    );
}

#[test]
fn listing_refusals_name_the_path() {
    let disk = Disk::with(&["file"]);
    let state = state(Permissions::default(), small());
    let refusal = |a: ListFilesArgs| list_files(&disk, &state, a).unwrap_err().message();
    assert_eq!(refusal(list(&["gone"])), "Path does not exist: gone");
    assert_eq!(refusal(list(&["file"])), "'file' is not a directory.");
    let mut bad = list(&[]);
    bad.glob = Some(" [".into());
    assert!(refusal(bad).starts_with("Invalid glob pattern ' [': "));
}

#[test]
fn listing_depth_is_bounded() {
    let disk = Disk::with(&["1/2/3/4"]);
    let state = state(Permissions::default(), Limits::default());
    let depth = |requested: Option<u32>| {
        let mut a = list(&[]);
        a.depth = requested;
        let out = list_files(&disk, &state, a).unwrap();
        (out.depth, out.entries.len())
    };
    assert_eq!(depth(None), (2, 2));
    assert_eq!(depth(Some(0)), (1, 1));
    assert_eq!(depth(Some(99)), (10, 4));
}

// ---------------------------------------------------------------------------
// apply_patch
// ---------------------------------------------------------------------------

const BASE: &str = "alpha\nbeta\ngamma\ndelta\nepsilon\n";

fn writable() -> Permissions {
    Permissions::from_flags(true, false, false).unwrap()
}

fn apply(disk: &mut Disk, permissions: Permissions, patch: &str) -> ToolResult<Vec<String>> {
    let state = state(permissions, Limits::default());
    let args = ApplyPatchArgs {
        patch: patch.to_string(),
    };
    let writes = plan_patch(
        state.single_workspace(),
        PathPresentation::SingleCompatible,
        &args,
        &|p: &FullPath| disk.locate(p),
        &|p: &FullPath| match disk.get(p) {
            Some(Node::File(bytes)) => TargetContent::Bytes(bytes.clone()),
            Some(_) => TargetContent::Unreadable("Is a directory (os error 21)".to_string()),
            None => TargetContent::Absent,
        },
    )?;
    let mut changed = Vec::new();
    for write in writes {
        disk.put(&shown(&write.target), Node::File(write.bytes));
        changed.push(write.shown);
    }
    Ok(changed)
}

fn content(disk: &Disk, rel: &str) -> String {
    match disk.node(&format!("/home/me/ws/{rel}")) {
        Some(Node::File(bytes)) => String::from_utf8(bytes.clone()).unwrap(),
        _ => panic!("no file {rel}"),
    }
}

fn simple_diff(body: &str) -> String {
    format!("--- sample.txt\n+++ sample.txt\n@@ -1,2 +1,2 @@\n-alpha\n-beta\n+ALPHA\n+BETA\n{body}")
}

#[test]
fn applies_simple_patch() {
    let mut disk = sample(BASE.as_bytes());
    let changed = apply(&mut disk, writable(), &simple_diff("")).unwrap();
    assert_eq!(changed, vec!["sample.txt".to_string()]);
    assert_eq!(
        content(&disk, "sample.txt"),
        "ALPHA\nBETA\ngamma\ndelta\nepsilon\n"
    );
}

#[test]
fn preserves_trailing_newline_absence() {
    let mut disk = sample(b"one\ntwo");
    let patch = "--- sample.txt\n+++ sample.txt\n@@ -1,2 +1,2 @@\n-one\n-two\n+ONE\n+TWO\n";
    apply(&mut disk, writable(), patch).unwrap();
    assert_eq!(content(&disk, "sample.txt"), "ONE\nTWO");
}

#[test]
fn fails_on_stale_context_without_touching_file() {
    let mut disk = sample(b"totally different content\nsecond line\n");
    let err = apply(&mut disk, writable(), &simple_diff("")).unwrap_err();
    assert!(err.message().contains("Failed to apply hunk"));
    assert!(err.message().contains("Re-read the file"));
    assert_eq!(
        content(&disk, "sample.txt"),
        "totally different content\nsecond line\n"
    );
}

#[test]
fn write_permission_is_required() {
    let mut disk = Disk::new();
    disk.write("f.txt", BASE.as_bytes());
    let err = apply(&mut disk, Permissions::default(), &simple_diff("")).unwrap_err();
    assert!(err.message().contains("--write"));
}

#[test]
fn rejects_workspace_escape_in_target() {
    let mut disk = sample(BASE.as_bytes());
    let patch = "--- ../../outside.txt\n+++ ../../outside.txt\n@@ -1,1 +1,1 @@\n-x\n+y\n";
    let err = apply(&mut disk, writable(), patch).unwrap_err();
    assert!(err.message().contains("Rejecting patch target"));
}

#[test]
fn creates_new_file_from_dev_null_header() {
    let mut disk = sample(BASE.as_bytes());
    let patch = "--- /dev/null\n+++ brand-new.txt\n@@ -0,0 +1,2 @@\n+first\n+second\n";
    let changed = apply(&mut disk, writable(), patch).unwrap();
    assert_eq!(changed, vec!["brand-new.txt".to_string()]);
    assert_eq!(content(&disk, "brand-new.txt"), "first\nsecond\n");
}

#[test]
fn multi_file_patch_applies_both_files() {
    let mut disk = Disk::new();
    disk.write("a.txt", b"A1\nA2\n");
    disk.write("b.txt", b"B1\nB2\n");
    let patch = "--- a.txt\n+++ a.txt\n@@ -1,1 +1,1 @@\n-A1\n+AX1\n--- b.txt\n+++ b.txt\n@@ -1,1 +1,1 @@\n-B1\n+BB1\n";
    let changed = apply(&mut disk, writable(), patch).unwrap();
    assert_eq!(changed.len(), 2);
    assert_eq!(content(&disk, "a.txt"), "AX1\nA2\n");
    assert_eq!(content(&disk, "b.txt"), "BB1\nB2\n");
}

#[test]
fn sections_on_the_same_file_build_on_each_other() {
    let mut disk = Disk::new();
    disk.write("s.txt", b"a\nb\n");
    let first = "--- s.txt\n+++ s.txt\n@@ -1,1 +1,1 @@\n-a\n+A\n";
    let second = "--- s.txt\n+++ ./s.txt\n@@ -2,1 +2,1 @@\n-b\n+B\n";
    let changed = apply(&mut disk, writable(), &format!("{first}{second}")).unwrap();
    assert_eq!(changed, ["s.txt", "s.txt"]);
    assert_eq!(content(&disk, "s.txt"), "A\nB\n");

    let mut disk = Disk::new();
    let created = "--- /dev/null\n+++ b/new.txt\n@@ -0,0 +1,1 @@\n+one\n";
    let edited = "--- a/new.txt\n+++ b/new.txt\n@@ -1,1 +1,1 @@\n-one\n+two\n";
    apply(&mut disk, writable(), &format!("{created}{edited}")).unwrap();
    assert_eq!(content(&disk, "new.txt"), "two\n");

    let mut disk = Disk::new();
    disk.write("s.txt", b"a\nb\n");
    let stale = "--- s.txt\n+++ s.txt\n@@ -1,1 +1,1 @@\n-a\n+C\n";
    assert!(apply(&mut disk, writable(), &format!("{first}{stale}")).is_err());
    assert_eq!(content(&disk, "s.txt"), "a\nb\n");
}

#[test]
fn joined_patches_and_preambles_are_read_in_order() {
    let a = "--- a/x\n+++ b/x\n@@ -1,1 +1,1 @@\n-1\n+2\n";
    let b = "--- a/y\n+++ b/y\n@@ -3,1 +3,1 @@\n-3\n+4\n";
    let files = parse_patch(&format!("{a}{b}")).unwrap();
    let names: Vec<&str> = files.iter().map(|file| file.new_path.as_str()).collect();
    assert_eq!(names, ["b/x", "b/y"]);
    assert_eq!(files[1].hunks[0].old_start, 3);
    let files = parse_patch(&format!("diff --git a/x b/x\nindex 1..2 100644\n{a}")).unwrap();
    assert_eq!(files.len(), 1);
    assert_eq!(files[0].hunks[0].ops.len(), 2);
}

#[test]
fn one_stale_file_stops_the_whole_patch() {
    let mut disk = Disk::new();
    disk.write("a.txt", b"A1\nA2\n");
    disk.write("b.txt", b"other\n");
    let patch = "--- a.txt\n+++ a.txt\n@@ -1,1 +1,1 @@\n-A1\n+AX1\n--- b.txt\n+++ b.txt\n@@ -1,1 +1,1 @@\n-B1\n+BB1\n";
    assert!(apply(&mut disk, writable(), patch).is_err());
    assert_eq!(content(&disk, "a.txt"), "A1\nA2\n");
    assert_eq!(content(&disk, "b.txt"), "other\n");
}

#[test]
fn newline_style_is_preserved() {
    let mut disk = sample(b"one\r\ntwo\r\nthree\r\n");
    let patch = "--- sample.txt\n+++ sample.txt\n@@ -1,3 +1,4 @@\n one\n-two\n+TWO\n+extra\n three\n";
    apply(&mut disk, writable(), patch).unwrap();
    assert_eq!(
        content(&disk, "sample.txt"),
        "one\r\nTWO\r\nextra\r\nthree\r\n"
    );
}

#[test]
fn git_prefixes_and_quotes_are_taken_off() {
    let mut disk = sample(BASE.as_bytes());
    let patch = "--- a/sample.txt\n+++ b/sample.txt\n@@ -1 +1 @@\n-alpha\n+ALPHA\n";
    apply(&mut disk, writable(), patch).unwrap();
    let patch = "--- \"sample.txt\"\n+++ \"sample.txt\"\n@@ -2 +2 @@\n-beta\n+BETA\n";
    apply(&mut disk, writable(), patch).unwrap();
    assert_eq!(
        content(&disk, "sample.txt"),
        "ALPHA\nBETA\ngamma\ndelta\nepsilon\n"
    );
}

#[test]
fn targets_that_cannot_be_patched_are_reported() {
    let patch = |name: &str| format!("--- {name}\n+++ {name}\n@@ -1 +1 @@\n-x\n+y\n");
    let mut disk = Disk::new();
    disk.dir("dir");
    disk.write("raw", b"\xff\n");
    let refusal = |disk: &mut Disk, name: &str| {
        apply(disk, writable(), &patch(name)).unwrap_err().message()
    };
    assert_eq!(
        refusal(&mut disk, "gone"),
        "Cannot patch 'gone': file does not exist."
    );
    assert_eq!(
        refusal(&mut disk, "raw"),
        "Cannot patch 'raw': file is not valid UTF-8."
    );
    assert_eq!(
        refusal(&mut disk, "dir"),
        "Cannot read 'dir': Is a directory (os error 21)"
    );
    assert_eq!(
        apply(&mut disk, writable(), "  \n").unwrap_err().message(),
        "Patch text is empty."
    );
}

#[test]
fn fuzzy_application_tolerates_drifted_line_numbers() {
    let mut disk = sample(BASE.as_bytes());
    let patch = "--- sample.txt\n+++ sample.txt\n@@ -5,2 +5,2 @@\n-alpha\n-beta\n+ALPHA\n+BETA\n";
    apply(&mut disk, writable(), patch).unwrap();
    assert_eq!(
        content(&disk, "sample.txt"),
        "ALPHA\nBETA\ngamma\ndelta\nepsilon\n"
    );
}

#[test]
fn appends_when_no_context_matches_anywhere_but_addition_only() {
    let mut disk = sample(BASE.as_bytes());
    let patch = "--- sample.txt\n+++ sample.txt\n@@ -6,0 +6,1 @@\n+zeta\n";
    apply(&mut disk, writable(), patch).unwrap();
    assert_eq!(
        content(&disk, "sample.txt"),
        "alpha\nbeta\ngamma\ndelta\nepsilon\nzeta\n"
    );
}

#[test]
fn rejects_malformed_headers() {
    let mut disk = sample(BASE.as_bytes());
    let err = apply(&mut disk, writable(), "this is not a patch\n").unwrap_err();
    assert!(err.message().contains("No usable unified-diff"));
    let err = apply(&mut disk, writable(), "--- f\nno plus header\n").unwrap_err();
    assert!(err.message().contains("'+++' header"));
}

#[test]
fn rejects_rename_and_binary_ext_headers() {
    let mut disk = sample(BASE.as_bytes());
    let err = apply(&mut disk, writable(), "rename from x\nrename to y\n").unwrap_err();
    assert!(err.message().contains("rename from"));
    let err = apply(&mut disk, writable(), "copy from x\ncopy to y\n").unwrap_err();
    assert!(err.message().contains("copy from"));
    let err = apply(&mut disk, writable(), "GIT binary patch\n").unwrap_err();
    assert!(err.message().contains("GIT binary patch"));
}

#[test]
fn failed_writes_are_shown_by_mode() {
    let state = state(writable(), Limits::default());
    let report = |presentation, step, path: &str| {
        write_failed(
            state.single_workspace(),
            presentation,
            step,
            &full(path),
            "disk full",
        )
        .message()
    };
    let single = PathPresentation::SingleCompatible;
    let registry = PathPresentation::RegistryRelative;
    let path = "/home/me/ws/a/.b.tmp7";
    assert_eq!(
        report(single, WriteStep::CreateTemp, path),
        "Failed to create temp file '/home/me/ws/a/.b.tmp7': disk full"
    );
    assert_eq!(
        report(registry, WriteStep::CreateTemp, path),
        "Failed to create temp file 'a/.b.tmp7': disk full"
    );
    assert_eq!(
        report(registry, WriteStep::CreateDirectory, "/home/me/ws"),
        "Failed to create directory '.': disk full"
    );
    assert_eq!(
        report(registry, WriteStep::Replace, "/home/me/ws/a/b"),
        "Failed to replace 'a/b': disk full"
    );
    assert_eq!(
        report(single, WriteStep::WriteTemp, path),
        "Failed to write temp file: disk full"
    );
    assert_eq!(temp_file_name("b", 7), ".b.tmp7");
}

// ---------------------------------------------------------------------------
// search
// ---------------------------------------------------------------------------

struct Collecting<'a> {
    path: &'a str,
    collector: &'a mut SearchCollector,
}

impl Sink for Collecting<'_> {
    type Error = std::io::Error;

    fn matched(&mut self, _: &Searcher, found: &SinkMatch<'_>) -> Result<bool, Self::Error> {
        Ok(self
            .collector
            .matched(self.path, found.line_number(), found.bytes()))
    }
}

/// Searches below a path; tells whether to go on.
fn search_below(
    disk: &Disk,
    ws: &Workspace,
    plan: &SearchPlan,
    path: &str,
    depth: usize,
    collector: &mut SearchCollector,
) -> bool {
    let node = disk.node(path).unwrap();
    let name = path[path.rfind('/').unwrap() + 1..].to_string();
    let is_dir = matches!(node, Node::Dir);
    if !entry_admissible(depth, &name, is_dir, &plan.territory, &plan.filter) {
        return true;
    }
    match node {
        Node::Link(_) => true,
        Node::Dir => disk.children(path).iter().all(|(child, _)| {
            search_below(
                disk,
                ws,
                plan,
                &format!("{path}/{child}"),
                depth + 1,
                collector,
            )
        }),
        Node::File(bytes) => {
            let rel = ws.display_relative(&full(path));
            if !collector.begin_file(plan, &rel, &Some(name)) {
                return true;
            }
            SearcherBuilder::new()
                .line_number(true)
                .binary_detection(BinaryDetection::quit(b'\x00'))
                .build()
                .search_slice(
                    &plan.matcher,
                    bytes,
                    Collecting {
                        path: &rel,
                        collector,
                    },
                )
                .unwrap();
            !collector.is_full()
        }
    }
}

fn search(disk: &Disk, args: SearchArgs) -> ToolResult<SearchReport> {
    let state = state(Permissions::default(), Limits::default());
    let plan = plan_search(
        state.single_workspace(),
        state.limits(),
        PathPresentation::SingleCompatible,
        &args,
        &|p: &FullPath| disk.locate(p),
        &|p: &FullPath| disk.get(p).is_some(),
    )?;
    let mut collector = SearchCollector::new(plan.max_results, plan.max_line_bytes);
    search_below(
        disk,
        state.workspace(),
        &plan,
        &shown(&plan.target),
        0,
        &mut collector,
    );
    let path = state.workspace().display_relative(&plan.target);
    Ok(collector.finish(&args.query, &path))
}

fn query(text: &str) -> SearchArgs {
    SearchArgs {
        query: text.to_string(),
        path: None,
        glob: None,
        ignore_case: false,
        literal: false,
        max_results: None,
    }
}

fn query_in(text: &str, path: &str) -> SearchArgs {
    SearchArgs {
        path: Some(path.to_string()),
        ..query(text)
    }
}

fn found_paths(report: &SearchReport) -> Vec<&str> {
    report.matches.iter().map(|m| m.path.as_str()).collect()
}

#[test]
fn result_limit_sets_truncated_flag() {
    let mut disk = Disk::new();
    for i in 0..50 {
        disk.write(&format!("f{i}.txt"), "needle\n".repeat(10).as_bytes());
    }
    let mut a = query("needle");
    a.max_results = Some(7);
    let out = search(&disk, a).unwrap();
    assert_eq!(out.matches.len(), 7);
    assert!(
        out.truncated,
        "cap reached with more matches present must report truncated"
    );
    assert_eq!(out.files_searched, 1);
}

#[test]
fn exhaustive_search_is_not_truncated() {
    let mut disk = Disk::new();
    disk.write("a.txt", b"hit one\nmiss\nhit two\n");
    let out = search(&disk, query("hit")).unwrap();
    assert_eq!(out.matches.len(), 2);
    assert!(!out.truncated);
}

#[test]
fn hidden_files_are_skipped_unless_glob_or_path_selects_them() {
    let mut disk = Disk::new();
    disk.write("normal.txt", b"secret_token\n");
    disk.write(".env", b"secret_token=1\n");
    disk.write(".config/creds.txt", b"secret_token\n");

    let out = search(&disk, query("secret_token")).unwrap();
    assert_eq!(out.files_searched, 1);
    assert_eq!(out.matches[0].text, "secret_token");

    let mut a = query("secret_token");
    a.glob = Some(".env*".into());
    let out = search(&disk, a).unwrap();
    assert_eq!(out.files_searched, 1);
    assert_eq!(
        out.matches[0].text, "secret_token=1",
        "hidden .env was searched because the glob named it"
    );

    let out = search(&disk, query_in("secret_token", ".config")).unwrap();
    assert_eq!(out.files_searched, 1);
    assert_eq!(out.matches.len(), 1);

    disk.write(".git/leaked.txt", b"secret_token\n");
    let mut a = query("secret_token");
    a.glob = Some("*".into());
    let out = search(&disk, a).unwrap();
    assert_eq!(
        out.files_searched, 3,
        "must see normal.txt + .env + .config/creds.txt, but never .git/leaked.txt"
    );
}

#[test]
fn generated_directories_still_skipped() {
    let mut disk = Disk::new();
    disk.write("node_modules/pkg/index.js", b"targetstring\n");
    disk.write("src.rs", b"targetstring\n");
    let out = search(&disk, query("targetstring")).unwrap();
    assert_eq!(out.files_searched, 1);
    assert_eq!(out.matches[0].line, 1);
}

#[test]
fn path_src_does_not_expose_hidden_or_generated_descendants() {
    let mut disk = Disk::new();
    disk.write("src/.hidden/secret.txt", b"marker\n");
    disk.write("src/node_modules/pkg/index.js", b"marker\n");
    disk.write("src/target/debug/artifact", b"marker\n");
    disk.write("src/code.rs", b"marker\n");
    let out = search(&disk, query_in("marker", "src")).unwrap();
    assert_eq!(out.files_searched, 1);
    assert_eq!(out.matches[0].path, "src/code.rs");
}

#[test]
fn explicit_hidden_path_admits_hidden_subtree_but_not_generated_children() {
    let mut disk = Disk::new();
    disk.write(".config/creds.txt", b"marker\n");
    disk.write(".config/.deep/y.txt", b"marker\n");
    disk.write(".config/node_modules/pkg/index.js", b"marker\n");
    let out = search(&disk, query_in("marker", ".config")).unwrap();
    assert_eq!(out.files_searched, 2);
    let paths = found_paths(&out);
    assert!(paths.contains(&".config/creds.txt"));
    assert!(paths.contains(&".config/.deep/y.txt"));
    assert!(!paths.iter().any(|p| p.contains("node_modules")));
}

#[test]
fn explicit_generated_path_allows_generated_subtree() {
    let mut disk = Disk::new();
    disk.write("node_modules/pkg/inner/index.js", b"marker\n");
    disk.write("target/debug/artifact", b"marker\n");
    let out = search(&disk, query_in("marker", "node_modules/pkg")).unwrap();
    assert_eq!(out.matches.len(), 1);
    assert_eq!(out.matches[0].path, "node_modules/pkg/inner/index.js");
}

#[test]
fn explicit_generated_directory_is_searchable() {
    let mut disk = Disk::new();
    disk.write("node_modules/left-pad/index.js", b"marker_here\n");
    disk.write("target/debug/artifact", b"marker_here\n");
    let out = search(&disk, query_in("marker_here", "node_modules")).unwrap();
    assert_eq!(out.matches.len(), 1);
    assert!(out.matches[0].path.starts_with("node_modules/"));
}

#[test]
fn hidden_generated_directories_need_generated_territory() {
    let hidden = Territory {
        hidden: true,
        generated: false,
    };
    let both = Territory {
        hidden: true,
        generated: true,
    };
    let generated = Territory {
        hidden: false,
        generated: true,
    };
    for name in [".cache", ".venv", ".next"] {
        assert!(!entry_admissible(1, name, true, &hidden, &None));
        assert!(!entry_admissible(1, name, true, &generated, &None));
        assert!(entry_admissible(1, name, true, &both, &None));
        assert!(entry_admissible(1, name, false, &hidden, &None));
        assert!(entry_admissible(0, name, true, &hidden, &None));
    }
    let filter = PathFilter::compile(&Some(".cache".to_string())).unwrap();
    assert!(!entry_admissible(1, ".cache", true, &hidden, &filter));
    assert!(entry_admissible(1, ".cache", true, &generated, &filter));
    assert!(entry_admissible(1, ".config", true, &hidden, &None));
}

#[test]
fn braces_nested_too_deeply_are_refused() {
    let nested = |depth: usize| Some(format!("{}a{}", "{".repeat(depth), "}".repeat(depth)));
    let refusal = |depth: usize| PathFilter::compile(&nested(depth)).unwrap_err();
    assert!(PathFilter::compile(&nested(20)).is_ok());
    assert_ne!(refusal(1000), "braces are nested too deeply");
    assert_eq!(refusal(1001), "braces are nested too deeply");
    assert_eq!(refusal(100_000), "braces are nested too deeply");
    let empty = Some(format!("{}{}b", "{".repeat(1000), "}".repeat(1000)));
    assert!(PathFilter::compile(&empty).unwrap().unwrap().matches("b"));
    let unclosed = PathFilter::compile(&Some("{".repeat(100_000))).unwrap_err();
    assert!(unclosed.contains("unclosed alternate group"), "{unclosed}");
    let unopened = PathFilter::compile(&Some(format!("}}{}", nested(2000).unwrap()))).unwrap_err();
    assert!(unopened.contains("unopened alternate group"), "{unopened}");
    if std::path::MAIN_SEPARATOR == '/' {
        let escaped = Some("\\{".repeat(2000));
        assert!(PathFilter::compile(&escaped).unwrap().unwrap().matches(&"{".repeat(2000)));
    }
    let class = Some(format!("[{}]", "{".repeat(1000)));
    let filter = PathFilter::compile(&class).unwrap().unwrap();
    assert!(filter.matches("{"));
    assert!(!filter.matches("a"));
    let row = Some("{a,b}".repeat(300));
    let filter = PathFilter::compile(&row).unwrap().unwrap();
    assert!(filter.matches(&"ab".repeat(150)));
}

#[test]
fn escapes_in_filters_are_the_platforms() {
    let filter = PathFilter::compile(&Some(r"\*.rs".to_string())).unwrap().unwrap();
    let escapes = std::path::MAIN_SEPARATOR == '/';
    assert_eq!(filter.matches("*.rs"), escapes);
    assert!(!filter.matches("main.rs"));
}

#[test]
fn explicit_vcs_metadata_roots_are_rejected() {
    let mut disk = Disk::new();
    disk.dir(".git/refs");
    disk.write(".git/config", b"[core]\n");
    disk.dir(".hg");
    disk.dir(".svn");
    for attempt in [".git", ".git/refs", ".hg", ".svn"] {
        let msg = search(&disk, query_in("core", attempt))
            .unwrap_err()
            .message();
        assert!(
            msg.contains("version-control metadata"),
            "'{attempt}' must be rejected with the VCS message, got: {msg}"
        );
    }
}

#[test]
fn recursive_search_never_enters_git_even_via_glob() {
    let mut disk = Disk::new();
    disk.write("top.txt", b"needle_nested_git\n");
    disk.write(".git/objects/pack/found.txt", b"needle_nested_git\n");
    let mut a = query("needle_nested_git");
    a.glob = Some("*".into());
    let out = search(&disk, a).unwrap();
    assert!(!format!("{:?}", out.matches).contains(".git"));
    assert_eq!(found_paths(&out), vec!["top.txt"]);
    assert!(search(&disk, query_in("needle_nested_git", ".git")).is_err());
}

#[test]
fn every_match_carries_workspace_relative_path() {
    let mut disk = Disk::new();
    disk.write("src/auth/login.rs", b"handle_login();\n");
    disk.write(
        "src/logout.rs",
        b"handle_logout();\nhandle_login_admin();\n",
    );
    let out = search(&disk, query("handle_")).unwrap();
    assert_eq!(out.matches.len(), 3);

    let login: Vec<_> = out
        .matches
        .iter()
        .filter(|m| m.path == "src/auth/login.rs")
        .collect();
    assert_eq!(login.len(), 1);
    assert_eq!(login[0].line, 1);
    assert_eq!(login[0].text, "handle_login();");

    let logout: Vec<_> = out
        .matches
        .iter()
        .filter(|m| m.path == "src/logout.rs")
        .collect();
    assert_eq!(logout.len(), 2);
    assert_eq!(logout[0].line, 1);
    assert_eq!(logout[0].text, "handle_logout();");
    assert_eq!(logout[1].line, 2);
    for m in &out.matches {
        assert!(!m.path.starts_with('/'), "absolute path leaked: {}", m.path);
        assert!(!m.path.contains(".."), "traversal leaked: {}", m.path);
    }
}

#[test]
fn symlink_alias_into_vcs_metadata_is_rejected() {
    let mut disk = Disk::new();
    disk.dir(".git/refs");
    disk.write(".git/config", b"[core]\n");
    disk.link("metadata", ".git");
    for attempt in ["metadata", "metadata/config", "metadata/refs"] {
        let err = search(&disk, query_in("core", attempt)).unwrap_err();
        assert!(
            err.message().contains("version-control metadata"),
            "'{attempt}' resolves into .git and must be rejected"
        );
    }
}

#[test]
fn normal_symlink_to_ordinary_directory_is_searchable() {
    let mut disk = Disk::new();
    disk.write("real/data.txt", b"ordinary_marker\n");
    disk.link("alias", "real");
    let out = search(&disk, query_in("ordinary_marker", "alias")).unwrap();
    assert_eq!(out.matches.len(), 1);
    assert_eq!(out.matches[0].path, "real/data.txt");
}

#[test]
fn vcs_metadata_names_match_case_insensitively() {
    let disk = Disk::new();
    for attempt in [".GIT", ".Git", ".HG", ".SVN"] {
        let err = search(&disk, query_in("x", attempt)).unwrap_err();
        assert!(
            err.message().contains("version-control metadata"),
            "'{attempt}' must be treated as VCS metadata"
        );
    }
}

#[test]
fn literal_queries_are_no_expressions() {
    let mut disk = Disk::new();
    disk.write("a.txt", b"a.c\nabc\nA.C\n");
    let lines = |a: SearchArgs| -> Vec<u64> {
        let out = search(&disk, a).unwrap();
        out.matches.iter().map(|m| m.line).collect()
    };
    assert_eq!(lines(query("a.c")), vec![1, 2]);
    let literal = SearchArgs {
        literal: true,
        ..query("a.c")
    };
    assert_eq!(lines(literal), vec![1]);
    let folded = SearchArgs {
        literal: true,
        ignore_case: true,
        ..query("a.c")
    };
    assert_eq!(lines(folded), vec![1, 3]);
}

#[test]
fn matched_lines_are_clipped() {
    let mut disk = Disk::new();
    let long = format!("needle {}\r\n", "x".repeat(400));
    disk.write("a.txt", long.as_bytes());
    let out = search(&disk, query("needle")).unwrap();
    assert!(out.matches[0].clipped);
    assert_eq!(out.matches[0].text.len(), 300 + "[…]".len());
    disk.write("a.txt", b"needle short\r\n");
    let out = search(&disk, query("needle")).unwrap();
    assert!(!out.matches[0].clipped);
    assert_eq!(out.matches[0].text, "needle short");
}

#[test]
fn exactly_as_many_matches_as_asked_for_are_not_truncated() {
    let mut disk = Disk::new();
    disk.write("a.txt", b"hit\nhit\n");
    let mut a = query("hit");
    a.max_results = Some(2);
    let out = search(&disk, a).unwrap();
    assert_eq!(out.matches.len(), 2);
    assert!(!out.truncated);
    disk.write("b.txt", b"hit\n");
    let mut a = query("hit");
    a.max_results = Some(2);
    assert!(search(&disk, a).unwrap().truncated);
    let mut a = query("hit");
    a.max_results = Some(0);
    assert_eq!(search(&disk, a).unwrap().matches.len(), 1);
}

#[test]
fn search_refusals_say_what_is_wrong() {
    let disk = Disk::new();
    let refusal = |a: SearchArgs| search(&disk, a).unwrap_err().message();
    assert_eq!(refusal(query("  ")), "Search query must not be empty.");
    assert_eq!(
        refusal(query_in("x", "gone")),
        "Search path does not exist: gone"
    );
    assert!(refusal(query("(")).starts_with("Invalid search expression '(': "));
    let mut bad = query("x");
    bad.glob = Some(" [ ".into());
    assert!(refusal(bad).starts_with("Invalid glob pattern '[': "));
    assert_eq!(
        refusal(query_in("x", "../x")),
        "Path resolves outside the configured workspace: ../x"
    );
}

// ---------------------------------------------------------------------------
// run_command: what is started
// ---------------------------------------------------------------------------

fn command(program: Option<&str>, shell: Option<&str>) -> RunCommandArgs {
    RunCommandArgs {
        program: program.map(String::from),
        args: None,
        shell: shell.is_some(),
        command: shell.map(String::from),
        cwd: None,
        timeout_seconds: None,
    }
}

fn all() -> Permissions {
    Permissions::from_flags(true, true, true).unwrap()
}

fn plan(
    disk: &Disk,
    permissions: Permissions,
    presentation: PathPresentation,
    args: &RunCommandArgs,
) -> ToolResult<(Invocation, String, u64)> {
    let state = state(permissions, Limits::default());
    let planned = plan_command(
        state.single_workspace(),
        state.limits(),
        presentation,
        args,
        &|p: &FullPath| disk.locate(p),
        &|p: &FullPath| matches!(disk.get(p), Some(Node::Dir)),
    )?;
    assert_eq!(planned.stdout_cap, 256 * 1024);
    assert_eq!(planned.stderr_cap, 256 * 1024);
    Ok((
        planned.invocation,
        shown(&planned.cwd),
        planned.timeout_secs,
    ))
}

fn plan_refused(disk: &Disk, permissions: Permissions, args: &RunCommandArgs) -> String {
    plan(disk, permissions, PathPresentation::SingleCompatible, args)
        .unwrap_err()
        .message()
}

#[test]
fn cwd_is_relative_to_workspace() {
    let mut disk = Disk::new();
    disk.dir("sub");
    let mut args = command(Some(" cat "), None);
    args.args = Some(vec!["marker.txt".into()]);
    args.cwd = Some("sub".into());
    let single = PathPresentation::SingleCompatible;
    let (invocation, cwd, timeout) = plan(&disk, all(), single, &args).unwrap();
    assert_eq!(cwd, "/home/me/ws/sub");
    assert_eq!(timeout, 120);
    match invocation {
        Invocation::Program { program, argv } => {
            assert_eq!(program, "cat");
            assert_eq!(argv, vec!["marker.txt".to_string()]);
        }
        other => panic!("unexpected {other:?}"),
    }
    args.cwd = Some("../../etc".into());
    assert!(plan_refused(&disk, all(), &args).contains("outside the configured workspace"));
    args.cwd = Some("gone".into());
    assert_eq!(
        plan_refused(&disk, all(), &args),
        "Working directory 'gone' does not exist or is not a directory."
    );
}

#[test]
fn exec_permission_is_required() {
    let disk = Disk::new();
    let err = plan_refused(
        &disk,
        Permissions::default(),
        &command(Some("echo"), None),
    );
    assert!(err.contains("--exec"), "{err}");
}

#[test]
fn shell_mode_requires_allow_shell_flag() {
    let disk = Disk::new();
    let args = command(None, Some("echo hi"));
    let no_shell = Permissions::from_flags(true, true, false).unwrap();
    let err = plan_refused(&disk, no_shell, &args);
    assert!(err.contains("--allow-shell"), "{err}");
    let single = PathPresentation::SingleCompatible;
    let (invocation, _, _) = plan(&disk, all(), single, &args).unwrap();
    assert!(matches!(invocation, Invocation::Shell { command_line } if command_line == "echo hi"));
}

#[test]
fn mixing_program_and_shell_args_is_rejected() {
    let disk = Disk::new();
    let mut args = command(Some("cargo"), Some("cargo check"));
    args.args = Some(vec!["check".into()]);
    let err = plan_refused(&disk, all(), &args);
    assert!(err.contains("not both"), "{err}");
    assert_eq!(
        plan_refused(&disk, all(), &command(None, Some(" "))),
        "shell=true requires a non-empty 'command' string."
    );
    assert_eq!(
        plan_refused(&disk, all(), &command(Some(" "), None)),
        "'program' is required (or pass shell=true with 'command')."
    );
}

#[test]
fn registry_command_cwd_stays_inside_the_selected_workspace() {
    let mut disk = Disk::new();
    disk.put("/home/me/other", Node::Dir);
    disk.link("alias", "/home/me/other");
    let mut args = command(Some("pwd"), None);
    for outside in ["../other", "/home/me/other", "alias"] {
        args.cwd = Some(outside.to_string());
        let err = plan(&disk, all(), PathPresentation::RegistryRelative, &args)
            .unwrap_err()
            .message();
        assert!(err.contains("outside the configured workspace"), "{err}");
    }
    args.cwd = Some("gone".to_string());
    let err = plan(&disk, all(), PathPresentation::RegistryRelative, &args)
        .unwrap_err()
        .message();
    assert!(!err.contains("/home/me"), "{err}");
}

#[test]
fn timeouts_are_bounded() {
    let disk = Disk::new();
    let mut args = command(Some("true"), None);
    for refused in [0, 3601] {
        args.timeout_seconds = Some(refused);
        assert_eq!(
            plan_refused(&disk, all(), &args),
            "timeout_seconds must be between 1 and 3600."
        );
    }
    args.timeout_seconds = Some(3600);
    let single = PathPresentation::SingleCompatible;
    assert_eq!(plan(&disk, all(), single, &args).unwrap().2, 3600);
}

//! Command-line options, permissions and workspace ids.
use nian_workspace::cli::{Cli, TransportChoice};
use nian_workspace::permissions::Permissions;
use nian_workspace::workspace_id::{WorkspaceId, WORKSPACE_ID_MAX_LEN};
use std::path::PathBuf;

fn cli(workspace: Option<PathBuf>, workspace_config: Option<PathBuf>) -> Cli {
    Cli {
        workspace,
        write: false,
        execute: false,
        allow_shell: false,
        workspace_config,
        transport: TransportChoice::Stdio,
        host: "127.0.0.1".to_string(),
        port: 8787,
        log_level: None,
    }
}

#[test]
fn single_workspace_mode_validates() {
    cli(Some(PathBuf::from(".")), None).validate().unwrap();
    cli(None, None).validate().unwrap();
}

#[test]
fn registry_mode_alone_validates() {
    cli(None, Some(PathBuf::from("workspaces.toml")))
        .validate()
        .unwrap();
}

#[test]
fn positional_workspace_and_registry_are_rejected() {
    let err = cli(
        Some(PathBuf::from(".")),
        Some(PathBuf::from("workspaces.toml")),
    )
    .validate()
    .unwrap_err()
    .message();
    assert!(
        err.contains("cannot be combined with a positional WORKSPACE"),
        "{err}"
    );
}

#[test]
fn permission_flags_are_rejected_in_registry_mode() {
    let config = Some(PathBuf::from("workspaces.toml"));

    let mut c = cli(None, config.clone());
    c.write = true;
    let err = c.validate().unwrap_err().message();
    assert!(
        err.contains("--write cannot be combined with --workspace-config"),
        "{err}"
    );

    let mut c = cli(None, config.clone());
    c.execute = true;
    let err = c.validate().unwrap_err().message();
    assert!(
        err.contains("--exec cannot be combined with --workspace-config"),
        "{err}"
    );

    let mut c = cli(None, config);
    c.allow_shell = true;
    let err = c.validate().unwrap_err().message();
    assert!(
        err.contains("--allow-shell cannot be combined with --workspace-config"),
        "{err}"
    );
}

#[test]
fn single_mode_accepts_every_permission_flag() {
    let mut c = cli(Some(PathBuf::from(".")), None);
    c.write = true;
    c.execute = true;
    c.allow_shell = true;
    c.validate().unwrap();
}

#[test]
fn defaults_are_conservative() {
    let p = Permissions::default();
    assert!(p.read);
    assert!(!p.write);
    assert!(!p.execute);
    assert!(!p.shell);
}

#[test]
fn read_only_by_default_flags() {
    let p = Permissions::from_flags(false, false, false).unwrap();
    assert_eq!(p, Permissions::default());
}

#[test]
fn write_flag_enables_patch() {
    let p = Permissions::from_flags(true, false, false).unwrap();
    assert!(p.write);
    assert!(p.require_write().is_ok());
    assert!(p.require_exec().is_err());
}

#[test]
fn exec_flag_enables_commands() {
    let p = Permissions::from_flags(true, true, false).unwrap();
    assert!(p.require_exec().is_ok());
    assert!(p.require_shell().is_err());
}

#[test]
fn shell_requires_exec() {
    assert!(Permissions::from_flags(true, false, true).is_err());
    assert!(Permissions::from_flags(true, true, true).is_ok());
}

#[test]
fn error_messages_mention_flags() {
    let p = Permissions::default();
    let err = p.require_write().unwrap_err().message();
    assert!(err.contains("--write"));
    let err = p.require_exec().unwrap_err().message();
    assert!(err.contains("--exec"));
    // Programs allowed but the shell still disabled: the guidance mentions --allow-shell.
    let p = Permissions::from_flags(true, true, false).unwrap();
    let err = p.require_shell().unwrap_err().message();
    assert!(err.contains("--allow-shell"));
}

#[test]
fn accepts_valid_ids() {
    for valid in [
        "nian-vision",
        "nian_home",
        "project.v2",
        "a",
        "w0rk-5pace._-",
    ] {
        let id = WorkspaceId::parse(valid).unwrap_or_else(|e| panic!("'{valid}' rejected: {e}"));
        assert_eq!(id.as_str(), valid);
    }
}

#[test]
fn rejects_uppercase() {
    assert!(WorkspaceId::parse("Nian-Vision").is_err());
    assert!(WorkspaceId::parse("nian-Vision").is_err());
}

#[test]
fn rejects_traversal_like_ids() {
    assert!(WorkspaceId::parse("../foo").is_err());
    assert!(WorkspaceId::parse("..").is_err());
    assert!(WorkspaceId::parse("foo/../../bar").is_err());
    // Dots inside are legal, only leading ones are not.
    assert!(WorkspaceId::parse("a..b").is_ok());
}

#[test]
fn rejects_path_separators() {
    assert!(WorkspaceId::parse("/tmp/foo").is_err());
    assert!(WorkspaceId::parse("foo/bar").is_err());
    assert!(WorkspaceId::parse(r"foo\bar").is_err());
}

#[test]
fn rejects_empty() {
    assert!(WorkspaceId::parse("").is_err());
}

#[test]
fn rejects_leading_dot_and_hyphen() {
    assert!(WorkspaceId::parse(".foo").is_err());
    assert!(WorkspaceId::parse("-foo").is_err());
    assert!(WorkspaceId::parse("_foo").is_err());
}

#[test]
fn rejects_non_ascii_and_whitespace() {
    assert!(WorkspaceId::parse("nian-vïsion").is_err());
    assert!(WorkspaceId::parse("nian vision").is_err());
    assert!(WorkspaceId::parse(" nian").is_err());
    assert!(WorkspaceId::parse("nian\tvision").is_err());
}

#[test]
fn accepts_max_length() {
    let max = format!("a{}", "-".repeat(WORKSPACE_ID_MAX_LEN - 1));
    assert_eq!(max.chars().count(), WORKSPACE_ID_MAX_LEN);
    assert!(WorkspaceId::parse(&max).is_ok());
}

#[test]
fn rejects_over_max_length() {
    let over = format!("a{}", "-".repeat(WORKSPACE_ID_MAX_LEN));
    assert_eq!(over.chars().count(), WORKSPACE_ID_MAX_LEN + 1);
    let err = WorkspaceId::parse(&over).unwrap_err();
    assert!(err.contains("at most 64"), "unexpected error: {err}");
}

#[test]
fn error_message_quotes_the_raw_id() {
    let err = WorkspaceId::parse("Nian").unwrap_err();
    assert!(err.contains("'Nian'"), "unexpected error: {err}");
}

#[test]
fn ids_parse_from_text_and_compare() {
    let id: WorkspaceId = "nian-vision".parse().unwrap();
    let same = id.clone();
    assert!(id.same(&same));
    assert_eq!(id, same);
    let other: WorkspaceId = "nian-home".parse().unwrap();
    assert!(!id.same(&other));
    assert!(other < id);
    let err = "../evil".parse::<WorkspaceId>().unwrap_err();
    assert!(err.contains("invalid workspace id"), "{err}");
}

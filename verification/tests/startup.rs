//! What is told and where is listened when a server starts.
use nian_workspace::server::{
    registry_instructions, runtime_environment_instructions, single_instructions,
};
use nian_workspace::transport::{resolve_loopback_bind, BindAddress, IpAddress};

fn address(shown: &str) -> Result<BindAddress, String> {
    let address = match shown {
        "127.0.0.1" => IpAddress::V4(127, 0, 0, 1),
        "127.5.4.3" => IpAddress::V4(127, 5, 4, 3),
        "::1" => IpAddress::V6(0, 0, 0, 0, 0, 0, 0, 1),
        "0.0.0.0" => IpAddress::V4(0, 0, 0, 0),
        "192.168.1.10" => IpAddress::V4(192, 168, 1, 10),
        "8.8.8.8" => IpAddress::V4(8, 8, 8, 8),
        "::" => IpAddress::V6(0, 0, 0, 0, 0, 0, 0, 0),
        _ => return Err("invalid IP address syntax".to_string()),
    };
    Ok(BindAddress {
        address,
        shown: shown.to_string(),
    })
}

fn bind(host: &str, localhost: &[&str]) -> Result<String, String> {
    resolve_loopback_bind(
        host,
        &|_: &str| localhost.iter().map(|shown| address(shown)).collect(),
        &|given: &str| address(given),
    )
    .map(|chosen| chosen.shown)
    .map_err(|e| e.message())
}

#[test]
fn accepts_loopback_literals() {
    assert_eq!(bind("127.0.0.1", &[]).unwrap(), "127.0.0.1");
    assert_eq!(bind("127.5.4.3", &[]).unwrap(), "127.5.4.3");
    assert_eq!(bind("::1", &[]).unwrap(), "::1");
}

#[test]
fn localhost_resolves_to_loopback() {
    assert_eq!(bind("localhost", &["::1", "127.0.0.1"]).unwrap(), "127.0.0.1");
    assert_eq!(bind("localhost", &["::1"]).unwrap(), "::1");
}

#[test]
fn localhost_must_be_loopback_throughout() {
    let err = bind("localhost", &["127.0.0.1", "8.8.8.8", "::"]).unwrap_err();
    assert!(
        err.starts_with("'localhost' resolves to 8.8.8.8, which is not a loopback address."),
        "{err}"
    );
    assert_eq!(
        bind("localhost", &[]).unwrap_err(),
        "'localhost' did not resolve to any address."
    );
    assert_eq!(
        bind("localhost", &["?"]).unwrap_err(),
        "failed to resolve 'localhost': invalid IP address syntax"
    );
}

#[test]
fn rejects_non_loopback_and_wildcard_binds() {
    for bad in ["0.0.0.0", "192.168.1.10", "8.8.8.8", "::"] {
        let msg = bind(bad, &[]).unwrap_err();
        assert!(
            msg.contains("loopback"),
            "rejection for '{bad}' should mention loopback: {msg}"
        );
        assert!(msg.contains(bad));
    }
}

#[test]
fn rejects_garbage_hosts_with_parse_error() {
    assert!(bind("not-a-host", &[]).is_err());
    assert!(bind("", &[]).is_err());
    assert_eq!(
        bind("not-a-host", &[]).unwrap_err(),
        "invalid bind host 'not-a-host': invalid IP address syntax"
    );
}

#[test]
fn names_the_current_os_and_architecture() {
    let text = runtime_environment_instructions("linux", "x86_64", false);
    assert!(text.contains("Runtime host: linux/x86_64."), "{text}");
}

#[test]
fn states_the_direct_execution_path_semantics() {
    for windows in [false, true] {
        let text = runtime_environment_instructions("any", "any", windows);
        assert!(
            text.contains(
                "Direct run_command execution resolves programs through PATH without a shell."
            ),
            "{text}"
        );
    }
}

#[test]
fn describes_the_windows_shell_truthfully() {
    let text = runtime_environment_instructions("windows", "x86_64", true);
    assert!(text.contains("cmd.exe"), "{text}");
    assert!(text.contains("/C"), "{text}");
    assert!(
        text.contains("PowerShell is not implied by shell=true"),
        "{text}"
    );
    assert!(
        !text.to_lowercase().contains("shell=true uses powershell"),
        "{text}"
    );
}

#[test]
fn describes_the_unix_shell_truthfully() {
    let text = runtime_environment_instructions("linux", "x86_64", false);
    assert!(text.contains("/bin/sh"), "{text}");
    assert!(text.contains("-c"), "{text}");
    assert!(!text.contains("cmd.exe"), "{text}");
}

#[test]
fn only_the_single_server_names_its_root() {
    let runtime = runtime_environment_instructions("linux", "x86_64", false);
    let single = single_instructions("/home/me/ws", &runtime);
    assert!(single.contains("rooted at '/home/me/ws'."), "{single}");
    assert!(single.ends_with(&runtime), "{single}");
    let registry = registry_instructions(&runtime);
    assert!(
        registry.contains("There is no default workspace."),
        "{registry}"
    );
    assert!(registry.ends_with(&runtime), "{registry}");
    assert!(!registry.contains("--write"), "{registry}");
}

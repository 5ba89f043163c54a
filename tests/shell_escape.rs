use spectree::shell::{shell_escape, ShellEscaped, Shell};

#[test]
fn test_shell_escape_simple_path() {
    let path = "/simple/path";
    let escaped = shell_escape(path);
    assert_eq!(escaped, "/simple/path");
}

#[test]
fn test_shell_escape_path_with_spaces() {
    let path = "/path with spaces/file.txt";
    let escaped = shell_escape(path);
    assert_eq!(escaped, "'/path with spaces/file.txt'");
}

#[test]
fn test_shell_escape_path_with_special_chars() {
    let path = "/path/with$special&chars";
    let escaped = shell_escape(path);
    assert_eq!(escaped, "'/path/with$special&chars'");
}

#[test]
fn test_shell_escape_path_with_quotes() {
    let path = "/path/with'quotes";
    let escaped = shell_escape(path);
    assert_eq!(escaped, "'/path/with'\\''quotes'");
}

#[test]
fn test_trait_str() {
    let s = "/simple/path";
    assert_eq!(s.shell_escaped(), "/simple/path");

    let s = "/path with spaces";
    assert_eq!(s.shell_escaped(), "'/path with spaces'");
}

#[test]
fn test_trait_string() {
    let s = String::from("/simple/path");
    assert_eq!(s.shell_escaped(), "/simple/path");

    let s = String::from("/path with spaces");
    assert_eq!(s.shell_escaped(), "'/path with spaces'");
}

#[test]
fn shell_escape_empty_is_quoted() {
    assert_eq!(shell_escape(""), "''");
    assert_eq!(shell_escape("a!b"), "'a'\\!'b'");
}

#[test]
fn local_shell_runs_bash() {
    let shell = Shell::new("/work");
    let (prog, args) = shell.command_line("echo hi");
    assert_eq!(prog, "bash");
    assert_eq!(args, vec!["-c".to_string(), "echo hi".to_string()]);
}

#[test]
fn container_shell_wraps_docker_run() {
    let shell = Shell::new("/work")
        .with_image("img")
        .with_mount("/host", "/workspace")
        .with_network(false);
    let (prog, args) = shell.command_line("make");
    assert_eq!(prog, "docker");
    let expected: Vec<String> = [
        "run", "--rm", "-v", "/work:/work", "-v", "/host:/workspace", "--network", "none", "-w", "/work",
        "img", "bash", "-c", "make",
    ]
    .iter()
    .map(|s| s.to_string())
    .collect();
    assert_eq!(args, expected);
}

use gh_stack::gh_cli::install_instructions;

#[test]
fn test_install_instructions_not_empty() {
    let instructions = install_instructions("linux");
    assert!(!instructions.is_empty());
    assert!(instructions.contains("install") || instructions.contains("cli.github.com"));
}

#[test]
fn install_instructions_per_system() {
    assert_eq!(install_instructions("macos"), "brew install gh");
    assert_eq!(install_instructions("windows"), "winget install GitHub.cli");
    assert_eq!(install_instructions("plan9"), "See https://cli.github.com/manual/installation");
}

use cdq::config::{config_file_contents, Config, Shell, ShellType};
use cdq::errors::NavError;

#[test]
fn config_round_trips_through_its_file_text() {
    let shell = Shell::new(ShellType::Zsh, b"/home/u/.zshrc".to_vec());
    let text = config_file_contents(&shell);
    assert_eq!(
        text,
        b"SHELL=Zsh\nSHELL_CONFIG_PATH=/home/u/.zshrc\n".to_vec()
    );
    let parsed = Config::from_string(std::str::from_utf8(&text).unwrap()).unwrap();
    assert_eq!(parsed.shell.name, ShellType::Zsh);
    assert_eq!(parsed.shell.path, b"/home/u/.zshrc".to_vec());
}

#[test]
fn unknown_shell_label_reads_as_other() {
    let parsed = Config::from_string("SHELL=powershell\nSHELL_CONFIG_PATH=/p\n").unwrap();
    assert_eq!(parsed.shell.name, ShellType::Other);
}

#[test]
fn malformed_config_is_corrupt_state() {
    assert!(matches!(
        Config::from_string("no newline at all"),
        Err(NavError::CorruptState)
    ));
    assert!(matches!(
        Config::from_string("WRONG=Zsh\nSHELL_CONFIG_PATH=/p\n"),
        Err(NavError::CorruptState)
    ));
    assert!(matches!(
        Config::from_string("SHELL=Zsh\nSHELL_CONFIG_PATH=\n"),
        Err(NavError::CorruptState)
    ));
}

#[test]
fn shell_type_from_labels() {
    assert_eq!(ShellType::from("Bash"), ShellType::Bash);
    assert_eq!(ShellType::from("Fish"), ShellType::Fish);
    assert_eq!(ShellType::from("Zsh"), ShellType::Zsh);
    assert_eq!(ShellType::from("Other"), ShellType::Other);
    assert_eq!(ShellType::from("zsh"), ShellType::Other);
}

#[test]
fn shell_type_from_program_names() {
    assert_eq!(ShellType::from_program_name("bash"), Some(ShellType::Bash));
    assert_eq!(ShellType::from_program_name("fish"), Some(ShellType::Fish));
    assert_eq!(ShellType::from_program_name("zsh"), Some(ShellType::Zsh));
    assert_eq!(ShellType::from_program_name("tcsh"), None);
}

#[test]
fn shell_var_values_resolve_by_their_last_component() {
    assert_eq!(
        ShellType::from_shell_var("/usr/bin/zsh"),
        Some(ShellType::Zsh)
    );
    assert_eq!(ShellType::from_shell_var("/bin/bash"), Some(ShellType::Bash));
    assert_eq!(ShellType::from_shell_var("fish"), Some(ShellType::Fish));
    assert_eq!(ShellType::from_shell_var("/usr/bin/tcsh"), None);
    assert_eq!(ShellType::from_shell_var("/usr/bin/"), None);
}

#[test]
fn default_startup_files_per_shell() {
    assert_eq!(ShellType::Zsh.config_file_name(), Some(".zshrc"));
    assert_eq!(ShellType::Bash.config_file_name(), Some(".bashrc"));
    assert_eq!(ShellType::Fish.config_file_name(), Some("config.fish"));
    assert_eq!(ShellType::Other.config_file_name(), None);
}

#[test]
fn describe_names_shell_and_startup_file() {
    let shell = Shell::new(ShellType::Bash, b"/home/u/.bashrc".to_vec());
    assert_eq!(
        shell.describe(),
        b"Shell type: Bash\nShell config file path: /home/u/.bashrc".to_vec()
    );
}

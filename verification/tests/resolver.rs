use ctrlrs::config::Config;
use ctrlrs::shell::{HistoryFormat, ShellType};
use ctrlrs::Error;

#[test]
fn test_shell_type_from_name() {
    assert_eq!(ShellType::from_name("bash"), Some(ShellType::Bash));
    assert_eq!(ShellType::from_name("zsh"), Some(ShellType::Zsh));
    assert_eq!(ShellType::from_name("fish"), Some(ShellType::Fish));
    assert_eq!(ShellType::from_name("unknown"), None);
}

#[test]
fn test_shell_type_from_name_case_and_containment() {
    assert_eq!(ShellType::from_name("BASH"), Some(ShellType::Bash));
    assert_eq!(ShellType::from_name("/usr/bin/zsh-5.9"), Some(ShellType::Zsh));
}

#[test]
fn test_shell_type_from_path() {
    assert_eq!(ShellType::from_path("/bin/bash"), Some(ShellType::Bash));
    assert_eq!(ShellType::from_path("/usr/bin/zsh"), Some(ShellType::Zsh));
    assert_eq!(ShellType::from_path("/usr/bin/fish"), Some(ShellType::Fish));
    assert_eq!(ShellType::from_path("/bin/unknown"), None);
}

#[test]
fn test_shell_type_from_path_trims() {
    assert_eq!(ShellType::from_path("  /bin/bash \n"), Some(ShellType::Bash));
    assert_eq!(ShellType::from_path("/bin/bashful"), None);
}

#[test]
fn test_history_format() {
    assert_eq!(ShellType::Bash.history_format(), HistoryFormat::Plain);
    assert_eq!(ShellType::Zsh.history_format(), HistoryFormat::ZshExtended);
    assert_eq!(ShellType::Fish.history_format(), HistoryFormat::Fish);
}

#[test]
fn test_default_history_path() {
    let home = dirs::home_dir().unwrap();
    let home = home.to_str().unwrap();

    assert_eq!(
        ShellType::Bash.default_history_path().unwrap(),
        format!("{}/{}", home, ".bash_history")
    );

    assert_eq!(
        ShellType::Zsh.default_history_path().unwrap(),
        format!("{}/{}", home, ".zsh_history")
    );

    assert_eq!(
        ShellType::Fish.default_history_path().unwrap(),
        format!("{}/{}", home, ".local/share/fish/fish_history")
    );
}

#[test]
fn test_history_path_in() {
    assert_eq!(
        ShellType::Zsh.history_path_in("/home/someone"),
        "/home/someone/.zsh_history"
    );
}

#[test]
fn test_config_with_explicit_values() {
    let config = Config::new(
        Some("bash".to_string()),
        Some("/tmp/test_history".to_string()),
        ShellType::Bash,
    )
    .unwrap();

    assert_eq!(config.shell_type, ShellType::Bash);
    assert_eq!(config.history_file, "/tmp/test_history".to_string());
}

#[test]
fn test_config_detected_shell_is_used() {
    let config = Config::new(None, Some("/tmp/h".to_string()), ShellType::Fish).unwrap();
    assert_eq!(config.shell_type, ShellType::Fish);
}

#[test]
fn test_config_unknown_shell_fails() {
    let err = Config::new(
        Some("tcsh".to_string()),
        Some("/tmp/h".to_string()),
        ShellType::Bash,
    )
    .unwrap_err();
    match err {
        Error::ShellDetection(msg) => {
            assert_eq!(msg, "Unsupported shell type: tcsh");
        }
        other => panic!("unexpected error: {:?}", other),
    }
}

use fgm::config::{count_config_path, count_remotes_index_path, legalize, FgmConfig, FgmContext};
use fgm::errors::FgmError;

#[test]
fn test_legalize() {
    let mut m = "~/gg".to_string();
    legalize(&mut m, "/home/somebody");
    assert_eq!(m, "/home/somebody/gg");
}

#[test]
fn legalize_touches_only_the_leading_tilde() {
    let mut m = "~/a~b".to_string();
    legalize(&mut m, "/h");
    assert_eq!(m, "/h/a~b");
}

#[test]
fn legalize_leaves_an_inner_tilde_alone() {
    let mut m = "/data/~cache".to_string();
    legalize(&mut m, "/h");
    assert_eq!(m, "/data/~cache");
}

#[test]
fn legalize_leaves_plain_paths_alone() {
    let mut m = "/usr/local/share/fgm".to_string();
    legalize(&mut m, "/home/somebody");
    assert_eq!(m, "/usr/local/share/fgm");
}

#[test]
fn default_context_holds_the_builtin_values() {
    let ctx = FgmContext::default();
    assert_eq!(ctx.installations_dir, "/usr/local/share/fgm");
    assert_eq!(ctx.gate_path, "~/.local/share/fgm/go");
    assert_eq!(ctx.remote_source, "https://go.dev/dl/");
    assert!(!ctx.update);
}

#[test]
fn update_from_config_overlays_only_what_is_set() {
    let mut ctx = FgmContext::default();
    let cf = FgmConfig {
        installations_dir: Some("/opt/fgm".to_string()),
        gate_path: None,
        remote_source: Some("https://example.com/dl/".to_string()),
    };
    ctx.update_from_config(&cf);
    assert_eq!(ctx.installations_dir, "/opt/fgm");
    assert_eq!(ctx.gate_path, "~/.local/share/fgm/go");
    assert_eq!(ctx.remote_source, "https://example.com/dl/");
}

#[test]
fn update_from_empty_config_changes_nothing() {
    let mut ctx = FgmContext::default();
    ctx.update_from_config(&FgmConfig::default());
    assert_eq!(ctx.installations_dir, "/usr/local/share/fgm");
    assert_eq!(ctx.gate_path, "~/.local/share/fgm/go");
    assert_eq!(ctx.remote_source, "https://go.dev/dl/");
}

#[test]
fn legalize_home_dir_without_tilde_is_ok_and_keeps_the_paths() {
    let mut ctx = FgmContext::default();
    ctx.gate_path = "/var/fgm/go".to_string();
    assert!(ctx.legalize_home_dir().is_ok());
    assert_eq!(ctx.installations_dir, "/usr/local/share/fgm");
    assert_eq!(ctx.gate_path, "/var/fgm/go");
}

#[test]
fn legalize_home_dir_resolves_the_tilde_when_a_home_is_known() {
    let mut ctx = FgmContext::default();
    match ctx.legalize_home_dir() {
        Ok(()) => {
            // The default gate path starts with `~`; whatever the home
            // directory is, the tilde must be gone and the tail kept.
            assert!(!ctx.gate_path.starts_with('~'));
            assert!(ctx.gate_path.ends_with("/.local/share/fgm/go"));
        }
        Err(e) => {
            // No home directory in this environment: the paths stay as
            // they were.
            assert_eq!(e, FgmError::HomeDirUnavailable);
            assert_eq!(ctx.gate_path, "~/.local/share/fgm/go");
        }
    }
}

#[test]
fn config_path_prefers_the_configuration_home() {
    let xdg = "/xdg".to_string();
    let home = "/home/somebody".to_string();
    let p = count_config_path(Some(&xdg), Some(&home)).unwrap();
    assert_eq!(p, "/xdg/fgm/config.toml");
}

#[test]
fn config_path_falls_back_to_the_home_directory() {
    let home = "/home/somebody".to_string();
    let p = count_config_path(None, Some(&home)).unwrap();
    assert_eq!(p, "/home/somebody/.fgm/config.toml");
}

#[test]
fn config_path_without_any_home_is_an_error() {
    assert_eq!(count_config_path(None, None), Err(FgmError::NoConfigHome));
}

#[test]
fn remotes_index_path_prefers_the_data_home() {
    let xdg = "/data".to_string();
    let p = count_remotes_index_path(Some(&xdg), None).unwrap();
    assert_eq!(p, "/data/fgm/remotes");
}

#[test]
fn remotes_index_path_falls_back_to_the_home_directory() {
    let home = "/home/somebody".to_string();
    let p = count_remotes_index_path(None, Some(&home)).unwrap();
    assert_eq!(p, "/home/somebody/.config/fgm/remotes");
}

#[test]
fn error_messages_name_the_failure() {
    assert_eq!(
        FgmError::VersionNotFound.message(),
        "target version not found"
    );
    assert_eq!(FgmError::NotASelectedVersion.message(), "not version selected");
}

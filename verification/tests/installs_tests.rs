use fgm::config::FgmContext;
use fgm::errors::FgmError;
use fgm::installs::{
    current_version, go_dir_path, init_script, install_plan, list_installed, path_parent,
    uninstall, use_plan,
};
use fgm::remotes::DownloadLink;

const ARCH: &str = "linux-amd64";

fn ctx() -> FgmContext {
    let mut ctx = FgmContext::default();
    ctx.installations_dir = "/opt/fgm".to_string();
    ctx.gate_path = "/home/somebody/.local/share/fgm/go".to_string();
    ctx
}

#[test]
fn init_script_exports_the_gate_bin_directory() {
    assert_eq!(
        init_script(&ctx()),
        "export PATH=/home/somebody/.local/share/fgm/go/bin:$PATH"
    );
}

#[test]
fn uninstall_of_an_absent_version_is_a_quiet_no_op() {
    assert_eq!(uninstall(&ctx(), "1.22.3", ARCH, false), None);
}

#[test]
fn uninstall_of_a_present_version_names_its_directory() {
    assert_eq!(
        uninstall(&ctx(), "1.22.3", ARCH, true),
        Some("/opt/fgm/go1.22.3.linux-amd64".to_string())
    );
}

#[test]
fn install_plan_lays_out_every_path() {
    let remotes = vec![DownloadLink::try_from_version("1.22.3", ARCH).unwrap()];
    let plan = install_plan(&remotes, "1.22.3", ARCH, "/opt/fgm").unwrap();
    assert_eq!(plan.link, "https://go.dev/dl/go1.22.3.linux-amd64.tar.gz");
    assert_eq!(plan.download_path, "/opt/fgm/go1.22.3.linux-amd64.tar.gz");
    assert_eq!(plan.unpacked_dir, "/opt/fgm/go");
    assert_eq!(plan.output_dir, "/opt/fgm/go1.22.3.linux-amd64");
}

#[test]
fn install_plan_of_an_unknown_version_is_an_error() {
    let remotes = vec![DownloadLink::try_from_version("1.21.0", ARCH).unwrap()];
    assert!(matches!(
        install_plan(&remotes, "1.22.3", ARCH, "/opt/fgm"),
        Err(FgmError::VersionNotFound)
    ));
}

#[test]
fn path_parent_cuts_at_the_last_separator() {
    assert_eq!(path_parent("/a/b/c"), Some("/a/b".to_string()));
    assert_eq!(path_parent("/a"), Some("/".to_string()));
    assert_eq!(path_parent("bare"), Some("".to_string()));
    assert_eq!(path_parent(""), None);
}

#[test]
fn use_plan_of_an_installed_version_skips_the_install() {
    let installed = vec!["go1.22.3.linux-amd64".to_string()];
    let plan = use_plan(&ctx(), "1.22.3", ARCH, &installed).unwrap();
    assert!(!plan.needs_install);
    assert_eq!(plan.go_dir, "/opt/fgm/go1.22.3.linux-amd64");
    assert_eq!(plan.gate_parent, "/home/somebody/.local/share/fgm");
}

#[test]
fn use_plan_of_a_missing_version_installs_first() {
    let plan = use_plan(&ctx(), "1.22.3", ARCH, &vec![]).unwrap();
    assert!(plan.needs_install);
}

#[test]
fn use_plan_with_a_bare_gate_path_points_into_the_working_directory() {
    let mut c = ctx();
    c.gate_path = "gate".to_string();
    let plan = use_plan(&c, "1.22.3", ARCH, &vec![]).unwrap();
    assert_eq!(plan.gate_parent, "");
}

#[test]
fn use_plan_with_an_empty_gate_path_is_an_error() {
    let mut c = ctx();
    c.gate_path = "".to_string();
    assert!(matches!(
        use_plan(&c, "1.22.3", ARCH, &vec![]),
        Err(FgmError::InvalidGatePath)
    ));
}

#[test]
fn current_version_reads_the_gate_target() {
    assert_eq!(
        current_version("/opt/fgm", "/opt/fgm/go1.22.3.linux-amd64", ARCH).unwrap(),
        "1.22.3"
    );
}

#[test]
fn a_target_outside_the_installation_directory_is_an_error() {
    assert_eq!(
        current_version("/opt/fgm", "/elsewhere/go1.22.3.linux-amd64", ARCH),
        Err(FgmError::NotASelectedVersion)
    );
}

#[test]
fn a_target_of_another_shape_is_an_error() {
    assert_eq!(
        current_version("/opt/fgm", "/opt/fgm/rust-1.70", ARCH),
        Err(FgmError::NotASelectedVersion)
    );
    assert_eq!(
        current_version("/opt/fgm", "/opt/fgm/go1.22.3.windows-amd64", ARCH),
        Err(FgmError::NotASelectedVersion)
    );
}

#[test]
fn activating_then_reading_gives_the_version_back() {
    let c = ctx();
    let installed = vec!["go1.22.3.linux-amd64".to_string()];
    let plan = use_plan(&c, "1.22.3", ARCH, &installed).unwrap();
    assert_eq!(
        current_version(&c.installations_dir, &plan.go_dir, ARCH).unwrap(),
        "1.22.3"
    );
    // The same composition, spelled through the path builder.
    let target = go_dir_path("/opt/fgm", "1.21.0", ARCH);
    assert_eq!(current_version("/opt/fgm", &target, ARCH).unwrap(), "1.21.0");
}

#[test]
fn list_installed_sorts_annotates_and_skips() {
    let installed = vec![
        "go1.22.3.linux-amd64".to_string(),
        "stray".to_string(),
        "go1.21.0.linux-amd64".to_string(),
    ];
    let current = "1.22.3".to_string();
    let lines = list_installed(installed, Some(&current), ARCH, true, false);
    assert_eq!(
        lines,
        vec!["1.21.0".to_string(), "1.22.3 (current)".to_string()]
    );
}

#[test]
fn list_installed_reversed_walks_downwards() {
    let installed = vec![
        "go1.21.0.linux-amd64".to_string(),
        "go1.22.3.linux-amd64".to_string(),
    ];
    let lines = list_installed(installed, None, ARCH, true, true);
    assert_eq!(lines, vec!["1.22.3".to_string(), "1.21.0".to_string()]);
}

#[test]
fn list_installed_without_sort_keeps_the_given_order() {
    let installed = vec![
        "go1.22.3.linux-amd64".to_string(),
        "go1.21.0.linux-amd64".to_string(),
    ];
    let lines = list_installed(installed, None, ARCH, false, false);
    assert_eq!(lines, vec!["1.22.3".to_string(), "1.21.0".to_string()]);
}

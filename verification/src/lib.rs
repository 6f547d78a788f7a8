//! A version manager for the Go toolchain.
//!
//! The crate models the manager's behaviour over plain values: remote release
//! archives are `DownloadLink` records, the configuration is an `FgmContext`,
//! and every operation on them (resolving a version, rendering listings,
//! planning an install or an activation, recovering the active version from
//! the target of the `gate_path` symlink) is a verified function over
//! those values.
//! Filesystem and network work is left to the binary around the library.

pub mod config;
pub mod errors;
pub mod installs;
pub mod remotes;
pub mod sorting;
pub mod strings;

pub use errors::FgmError;
pub use installs::{
    current_version, init_script, install_plan, lemma_use_then_current, list_installed, uninstall,
    use_plan, InstallPlan, UsePlan,
};
pub use remotes::{
    cache_content, find_link, list_remote, parse_remotes_index, plan_remotes, remotes_from_anchors,
    remotes_from_html, DownloadLink, DownloadLinkView, RemotesPlan,
};

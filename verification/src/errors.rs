//! The library's error type.

use vstd::prelude::*;
use vstd::string::StringExecFns;

verus! {

/// What can go wrong in the manager's own logic.
#[derive(Clone, Copy, Debug, PartialEq, Eq, Structural)]
pub enum FgmError {
    /// The requested version has no matching remote release archive.
    VersionNotFound,
    /// A scraped anchor carries no reference to follow.
    MissingHref,
    /// No parent directory exists in which the `gate_path` symlink could live.
    InvalidGatePath,
    /// A path needs the home directory, and none could be found.
    HomeDirUnavailable,
    /// What the `gate_path` symlink points at does not name an installed version.
    NotASelectedVersion,
    /// Neither a configuration-home nor a home directory is known.
    NoConfigHome,
}

impl FgmError {
    /// A short description of the error.
    pub fn message(&self) -> (r: String)
        ensures
            r@ == self.spec_message(),
    {
        match self {
            FgmError::VersionNotFound => String::from_str("target version not found"),
            FgmError::MissingHref => String::from_str("download link without href"),
            FgmError::InvalidGatePath => String::from_str("gate path has no parent"),
            FgmError::HomeDirUnavailable => String::from_str("fail to get home dir"),
            FgmError::NotASelectedVersion => String::from_str("not version selected"),
            FgmError::NoConfigHome => String::from_str("no configuration directory"),
        }
    }

    /// The characters of the error's description.
    pub open spec fn spec_message(&self) -> Seq<char> {
        match self {
            FgmError::VersionNotFound => "target version not found"@,
            FgmError::MissingHref => "download link without href"@,
            FgmError::InvalidGatePath => "gate path has no parent"@,
            FgmError::HomeDirUnavailable => "fail to get home dir"@,
            FgmError::NotASelectedVersion => "not version selected"@,
            FgmError::NoConfigHome => "no configuration directory"@,
        }
    }
}

} // verus!

//! The manager's configuration: built-in defaults, overlay from an optional
//! configuration file, and resolution of `~` against the home directory.

use vstd::prelude::*;
use vstd::string::StrSliceExecFns;
use vstd::string::StringExecFns;

use crate::errors::FgmError;
use crate::strings::concat2;

verus! {

/// The effective configuration of one invocation.
#[derive(Clone)]
pub struct FgmContext {
    /// Directory that holds one subdirectory per installed version.
    pub installations_dir: String,
    /// The symlink whose target names the active version.
    pub gate_path: String,
    /// The page listing the remote release archives.
    pub remote_source: String,
    /// Whether the remote index must be fetched afresh.
    pub update: bool,
}

/// The optional on-disk configuration: any field present overrides the
/// built-in default.
#[derive(Debug, Default)]
pub struct FgmConfig {
    pub installations_dir: Option<String>,
    pub gate_path: Option<String>,
    pub remote_source: Option<String>,
}

impl Default for FgmContext {
    /// The built-in configuration used when no file overrides it.
    fn default() -> (r: Self)
        ensures
            r.installations_dir@ == "/usr/local/share/fgm"@,
            r.gate_path@ == "~/.local/share/fgm/go"@,
            r.remote_source@ == "https://go.dev/dl/"@,
            r.update == false,
    {
        FgmContext {
            installations_dir: String::from_str("/usr/local/share/fgm"),
            gate_path: String::from_str("~/.local/share/fgm/go"),
            remote_source: String::from_str("https://go.dev/dl/"),
            update: false,
        }
    }
}

/// The path begins with the home-directory token.
pub open spec fn begins_with_tilde(s: Seq<char>) -> bool {
    s.len() > 0 && s[0] == '~'
}

/// `s` with a leading `~` replaced by the home directory; a path that does
/// not begin with the token is left as it is.
pub open spec fn legalized(s: Seq<char>, home: Seq<char>) -> Seq<char> {
    if begins_with_tilde(s) {
        home + s.skip(1)
    } else {
        s
    }
}

/// Replaces a leading `~` in `path` by `home`.
pub fn legalize(path: &mut String, home: &str)
    ensures
        final(path)@ == legalized(old(path)@, home@),
{
    let n = path.as_str().unicode_len();
    if n > 0 && path.as_str().get_char(0) == '~' {
        let tail = path.as_str().substring_char(1, n);
        proof {
            assert(tail@ =~= old(path)@.skip(1));
        }
        let replaced = concat2(home, tail);
        *path = replaced;
    }
}

/// Whether the path begins with the home-directory token.
fn begins_tilde(s: &str) -> (r: bool)
    ensures
        r == begins_with_tilde(s@),
{
    s.unicode_len() > 0 && s.get_char(0) == '~'
}

/// Relies on dirs::home_dir: the home directory from `$HOME` or the user
/// database, which is `None` or a non-empty path.
#[verifier::external_body]
fn home_dir_string() -> (r: Option<String>)
    ensures
        r matches Some(h) ==> h@.len() > 0,
{
    dirs::home_dir().map(|d| d.display().to_string())
}

impl FgmContext {
    /// Overlays onto `self` every field that the configuration file sets.
    pub fn update_from_config(&mut self, cf: &FgmConfig)
        ensures
            final(self).installations_dir@ == match cf.installations_dir {
                Some(v) => v@,
                None => old(self).installations_dir@,
            },
            final(self).gate_path@ == match cf.gate_path {
                Some(v) => v@,
                None => old(self).gate_path@,
            },
            final(self).remote_source@ == match cf.remote_source {
                Some(v) => v@,
                None => old(self).remote_source@,
            },
            final(self).update == old(self).update,
    {
        if let Some(v) = &cf.installations_dir {
            self.installations_dir = v.clone();
        }
        if let Some(v) = &cf.gate_path {
            self.gate_path = v.clone();
        }
        if let Some(v) = &cf.remote_source {
            self.remote_source = v.clone();
        }
    }

    /// Replaces a leading `~` in every path-like field by the home
    /// directory.  Fails only when some field begins with `~` and no home
    /// directory is known; a configuration without the token never needs
    /// one.
    pub fn legalize_home_dir(&mut self) -> (r: Result<(), FgmError>)
        ensures
            r is Ok ==> exists|h: Seq<char>|
                {
                    &&& h.len() > 0
                    &&& final(self).installations_dir@ == legalized(old(self).installations_dir@, h)
                    &&& final(self).gate_path@ == legalized(old(self).gate_path@, h)
                    &&& final(self).remote_source@ == legalized(old(self).remote_source@, h)
                },
            r is Err ==> *final(self) == *old(self) && r == Err::<(), FgmError>(
                FgmError::HomeDirUnavailable,
            ),
            !begins_with_tilde(old(self).installations_dir@) && !begins_with_tilde(
                old(self).gate_path@,
            ) && !begins_with_tilde(old(self).remote_source@) ==> r is Ok,
            final(self).update == old(self).update,
    {
        let any_tilde = begins_tilde(self.installations_dir.as_str()) || begins_tilde(
            self.gate_path.as_str(),
        ) || begins_tilde(self.remote_source.as_str());
        if !any_tilde {
            proof {
                let h = seq!['h'];
                assert(h.len() > 0 && self.installations_dir@ == legalized(
                    self.installations_dir@,
                    h,
                ) && self.gate_path@ == legalized(self.gate_path@, h) && self.remote_source@
                    == legalized(self.remote_source@, h));
            }
            return Ok(());
        }
        match home_dir_string() {
            Some(home) => {
                let ghost h = home@;
                legalize(&mut self.installations_dir, home.as_str());
                legalize(&mut self.gate_path, home.as_str());
                legalize(&mut self.remote_source, home.as_str());
                proof {
                    assert(final(self).installations_dir@ == legalized(
                        old(self).installations_dir@,
                        h,
                    ));
                }
                Ok(())
            },
            None => Err(FgmError::HomeDirUnavailable),
        }
    }
}

/// The path of the configuration file: under the configuration home when one
/// is set, else under the home directory, else unknown.
pub fn count_config_path(xdg_config_home: Option<&String>, home: Option<&String>) -> (r: Result<
    String,
    FgmError,
>)
    ensures
        match r {
            Ok(p) => match xdg_config_home {
                Some(v) => p@ == v@ + "/fgm/config.toml"@,
                None => home matches Some(h) && p@ == h@ + "/.fgm/config.toml"@,
            },
            Err(e) => xdg_config_home is None && home is None && e == FgmError::NoConfigHome,
        },
{
    match xdg_config_home {
        Some(v) => Ok(concat2(v.as_str(), "/fgm/config.toml")),
        None => match home {
            Some(h) => Ok(concat2(h.as_str(), "/.fgm/config.toml")),
            None => Err(FgmError::NoConfigHome),
        },
    }
}

/// The path of the remote-index cache file: under the data home when one is
/// set, else under the home directory, else unknown.
pub fn count_remotes_index_path(xdg_data_home: Option<&String>, home: Option<&String>) -> (r:
    Result<String, FgmError>)
    ensures
        match r {
            Ok(p) => match xdg_data_home {
                Some(v) => p@ == v@ + "/fgm"@ + "/remotes"@,
                None => home matches Some(h) && p@ == h@ + "/.config/fgm"@ + "/remotes"@,
            },
            Err(e) => xdg_data_home is None && home is None && e == FgmError::NoConfigHome,
        },
{
    match xdg_data_home {
        Some(v) => {
            let d = concat2(v.as_str(), "/fgm");
            Ok(concat2(d.as_str(), "/remotes"))
        },
        None => match home {
            Some(h) => {
                let d = concat2(h.as_str(), "/.config/fgm");
                Ok(concat2(d.as_str(), "/remotes"))
            },
            None => Err(FgmError::NoConfigHome),
        },
    }
}

} // verus!

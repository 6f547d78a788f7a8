//! Installed versions: the layout of the installation directory, planning
//! an install or an activation, removal, the active version behind the
//! gate symlink, and the installed listing.

use vstd::prelude::*;
use vstd::relations::sorted_by;
use vstd::string::StrSliceExecFns;
use vstd::string::StringExecFns;

use crate::config::FgmContext;
use crate::errors::FgmError;
use crate::remotes::{
    find_link, lemma_version_items_reverse, lemma_version_items_sorted, prefix_free,
    spec_archive_filename, spec_arranged, spec_version_items, arrange_strings, version_items,
    DownloadLink,
};
use crate::sorting::{lemma_sort_lex_ensures, lex_leq, sort_lex};
use crate::strings::{
    concat2, concat3, ends_with, lex_le, spec_replace, starts_with, str_eq, replace_str,
    strip_prefix_str, strip_suffix_str,
};

verus! {

/// The name of the directory one installed version lives in.
pub open spec fn spec_dir_name(version: Seq<char>, arch: Seq<char>) -> Seq<char> {
    "go"@ + version + "."@ + arch
}

/// The full path of the directory one installed version lives in.
pub open spec fn spec_go_dir(installations_dir: Seq<char>, version: Seq<char>, arch: Seq<char>) -> Seq<
    char,
> {
    installations_dir + "/"@ + spec_dir_name(version, arch)
}

/// The directory name a version uses on this architecture.
pub fn dir_name(version: &str, sys_arch: &str) -> (r: String)
    ensures
        r@ == spec_dir_name(version@, sys_arch@),
{
    let head = concat3("go", version, ".");
    let r = concat2(head.as_str(), sys_arch);
    proof {
        assert(r@ =~= spec_dir_name(version@, sys_arch@));
    }
    r
}

/// The full path a version's directory uses under `installations_dir`.
pub fn go_dir_path(installations_dir: &str, version: &str, sys_arch: &str) -> (r: String)
    ensures
        r@ == spec_go_dir(installations_dir@, version@, sys_arch@),
{
    let name = dir_name(version, sys_arch);
    let head = concat2(installations_dir, "/");
    let r = concat2(head.as_str(), name.as_str());
    proof {
        assert(r@ =~= spec_go_dir(installations_dir@, version@, sys_arch@));
    }
    r
}

/// The script line that prepends `bin` under `gate_path` to the PATH.
pub fn init_script(config: &FgmContext) -> (r: String)
    ensures
        r@ == "export PATH="@ + config.gate_path@ + "/bin:$PATH"@,
{
    concat3("export PATH=", config.gate_path.as_str(), "/bin:$PATH")
}

/// The directory to remove for `version`, when there is one.  Uninstalling
/// a version whose directory does not exist asks for nothing and is no
/// error.
pub fn uninstall(cf: &FgmContext, version: &str, sys_arch: &str, dir_exists: bool) -> (r: Option<
    String,
>)
    ensures
        r is Some <==> dir_exists,
        r matches Some(p) ==> p@ == spec_go_dir(cf.installations_dir@, version@, sys_arch@),
{
    if dir_exists {
        Some(go_dir_path(cf.installations_dir.as_str(), version, sys_arch))
    } else {
        None
    }
}

/// Everything an install of one version touches on disk.
pub struct InstallPlan {
    /// Where the archive is fetched from.
    pub link: String,
    /// Where the fetched archive is put.
    pub download_path: String,
    /// The directory the archive unpacks to.
    pub unpacked_dir: String,
    /// The version-qualified directory the unpacked tree is renamed to.
    pub output_dir: String,
}

/// The paths an install of `version` uses, resolved against the remote
/// index: the archive whose name is exactly the one the version denotes,
/// fetched into the installation directory, unpacked there, and renamed to
/// the archive's name without its closing `.tar.gz`.
pub fn install_plan(
    remotes: &Vec<DownloadLink>,
    version: &str,
    sys_arch: &str,
    canon_dir: &str,
) -> (r: Result<InstallPlan, FgmError>)
    ensures
        r is Ok <==> exists|i: int|
            0 <= i < remotes.deep_view().len() && #[trigger] remotes.deep_view()[i].filename
                == spec_archive_filename(version@, sys_arch@),
        r matches Ok(p) ==> exists|i: int|
            {
                &&& 0 <= i < remotes.deep_view().len()
                &&& (#[trigger] remotes.deep_view()[i]).filename == spec_archive_filename(
                    version@,
                    sys_arch@,
                )
                &&& forall|k: int|
                    0 <= k < i ==> #[trigger] remotes.deep_view()[k].filename
                        != spec_archive_filename(version@, sys_arch@)
                &&& p.link@ == remotes.deep_view()[i].link
                &&& p.download_path@ == canon_dir@ + "/"@ + remotes.deep_view()[i].filename
                &&& p.unpacked_dir@ == canon_dir@ + "/go"@
                &&& p.output_dir@ == canon_dir@ + "/"@ + spec_replace(
                    remotes.deep_view()[i].filename,
                    ".tar.gz"@,
                    Seq::<char>::empty(),
                )
            },
        r is Err ==> r == Err::<InstallPlan, FgmError>(FgmError::VersionNotFound),
{
    let d = match find_link(remotes, version, sys_arch) {
        Ok(d) => d,
        Err(e) => {
            return Err(e);
        },
    };
    let head = concat2(canon_dir, "/");
    let download_path = concat2(head.as_str(), d.filename.as_str());
    let unpacked_dir = concat2(canon_dir, "/go");
    proof {
        reveal_strlit(".tar.gz");
        assert(".tar.gz"@.len() == 7);
    }
    let bare = replace_str(d.filename.as_str(), ".tar.gz", "");
    let output_dir = concat2(head.as_str(), bare.as_str());
    proof {
        reveal_strlit("");
        assert(""@ =~= Seq::<char>::empty());
    }
    Ok(InstallPlan { link: d.link, download_path, unpacked_dir, output_dir })
}

/// What stands before a path's last separator: the root itself for an
/// entry directly under the root, and the empty path — the working
/// directory — for a bare name without a separator.
pub open spec fn spec_parent_scan(s: Seq<char>) -> Seq<char>
    decreases s.len(),
{
    if s.len() == 0 {
        Seq::empty()
    } else if s.last() == '/' {
        if s.len() == 1 {
            seq!['/']
        } else {
            s.drop_last()
        }
    } else {
        spec_parent_scan(s.drop_last())
    }
}

/// The parent directory of a path; only the empty path has none.
pub open spec fn spec_parent(s: Seq<char>) -> Option<Seq<char>> {
    if s.len() == 0 {
        None
    } else {
        Some(spec_parent_scan(s))
    }
}

fn parent_scan(s: &str) -> (r: String)
    ensures
        r@ == spec_parent_scan(s@),
    decreases s@.len(),
{
    let n = s.unicode_len();
    if n == 0 {
        String::new()
    } else if s.get_char(n - 1) == '/' {
        if n == 1 {
            let r = String::from_str("/");
            proof {
                reveal_strlit("/");
                assert(r@ =~= seq!['/']);
            }
            r
        } else {
            let head = s.substring_char(0, n - 1);
            proof {
                assert(head@ =~= s@.drop_last());
            }
            String::from_str(head)
        }
    } else {
        let head = s.substring_char(0, n - 1);
        proof {
            assert(head@ =~= s@.drop_last());
        }
        parent_scan(head)
    }
}

/// The parent directory of a path, when it has one.
pub fn path_parent(s: &str) -> (r: Option<String>)
    ensures
        match r {
            Some(p) => spec_parent(s@) == Some(p@),
            None => spec_parent(s@) is None,
        },
{
    if s.unicode_len() == 0 {
        None
    } else {
        Some(parent_scan(s))
    }
}

/// Everything an activation of one version touches on disk.
pub struct UsePlan {
    /// Whether the version must be installed first.
    pub needs_install: bool,
    /// The installed version's directory, the symlink's target.
    pub go_dir: String,
    /// The directory holding the `gate_path` symlink, created when absent.
    pub gate_parent: String,
}

/// What activating `version` does: install it first exactly when no
/// installed directory carries its name, then make `gate_path` a symlink
/// to its directory; fails only on an empty `gate_path`, the one path
/// without a parent directory.
pub fn use_plan(cf: &FgmContext, version: &str, sys_arch: &str, installed: &Vec<String>) -> (r:
    Result<UsePlan, FgmError>)
    ensures
        r is Err <==> spec_parent(cf.gate_path@) is None,
        r is Err ==> r == Err::<UsePlan, FgmError>(FgmError::InvalidGatePath),
        r matches Ok(u) ==> {
            &&& u.needs_install == !installed.deep_view().contains(
                spec_dir_name(version@, sys_arch@),
            )
            &&& u.go_dir@ == spec_go_dir(cf.installations_dir@, version@, sys_arch@)
            &&& spec_parent(cf.gate_path@) == Some(u.gate_parent@)
        },
{
    let name = dir_name(version, sys_arch);
    let n = installed.len();
    let mut found = false;
    let mut i: usize = 0;
    while i < n
        invariant
            0 <= i <= n,
            n == installed@.len(),
            name@ == spec_dir_name(version@, sys_arch@),
            found <==> exists|k: int|
                0 <= k < i && #[trigger] installed.deep_view()[k] == name@,
        decreases n - i,
    {
        if str_eq(installed[i].as_str(), name.as_str()) {
            assert(installed.deep_view()[i as int] == name@);
            found = true;
        }
        i = i + 1;
    }
    let gate_parent = match path_parent(cf.gate_path.as_str()) {
        Some(p) => p,
        None => {
            return Err(FgmError::InvalidGatePath);
        },
    };
    let go_dir = go_dir_path(cf.installations_dir.as_str(), version, sys_arch);
    Ok(UsePlan { needs_install: !found, go_dir, gate_parent })
}

/// The version a gate target names: the target must lie directly under the
/// installation directory, in a directory named for a version on this
/// architecture.
pub open spec fn spec_current_version(
    installations_dir: Seq<char>,
    target: Seq<char>,
    arch: Seq<char>,
) -> Option<Seq<char>> {
    let prefix = installations_dir + "/"@;
    if starts_with(target, prefix) {
        let rest = target.skip(prefix.len() as int);
        if starts_with(rest, "go"@) {
            let rest2 = rest.skip("go"@.len() as int);
            let sfx = "."@ + arch;
            if ends_with(rest2, sfx) {
                Some(rest2.take(rest2.len() - sfx.len()))
            } else {
                None
            }
        } else {
            None
        }
    } else {
        None
    }
}

/// The active version that the resolved symlink target names, or the error
/// when the target does not name an installed version: because it lies
/// outside the installation directory, or its directory is not named for a
/// version on this architecture.
pub fn current_version(installations_dir: &str, target: &str, sys_arch: &str) -> (r: Result<
    String,
    FgmError,
>)
    ensures
        r matches Ok(v) ==> spec_current_version(installations_dir@, target@, sys_arch@) == Some(
            v@,
        ),
        r is Err <==> spec_current_version(installations_dir@, target@, sys_arch@) is None,
        r is Err ==> r == Err::<String, FgmError>(FgmError::NotASelectedVersion),
{
    let prefix = concat2(installations_dir, "/");
    let rest = match strip_prefix_str(target, prefix.as_str()) {
        Some(rest) => rest,
        None => {
            return Err(FgmError::NotASelectedVersion);
        },
    };
    let rest2 = match strip_prefix_str(rest.as_str(), "go") {
        Some(rest2) => rest2,
        None => {
            return Err(FgmError::NotASelectedVersion);
        },
    };
    let sfx = concat2(".", sys_arch);
    match strip_suffix_str(rest2.as_str(), sfx.as_str()) {
        Some(v) => Ok(v),
        None => Err(FgmError::NotASelectedVersion),
    }
}

/// Activating a version and then reading the active version gives that
/// version back: the symlink target that activation writes always recovers
/// the version it was made from.
pub proof fn lemma_use_then_current(
    installations_dir: Seq<char>,
    version: Seq<char>,
    arch: Seq<char>,
)
    ensures
        spec_current_version(
            installations_dir,
            spec_go_dir(installations_dir, version, arch),
            arch,
        ) == Some(version),
{
    let prefix = installations_dir + "/"@;
    let target = spec_go_dir(installations_dir, version, arch);
    assert(target =~= prefix + spec_dir_name(version, arch));
    assert(target.take(prefix.len() as int) =~= prefix);
    let rest = target.skip(prefix.len() as int);
    assert(rest =~= spec_dir_name(version, arch));
    assert(rest =~= "go"@ + (version + "."@ + arch));
    assert(rest.take("go"@.len() as int) =~= "go"@);
    let rest2 = rest.skip("go"@.len() as int);
    assert(rest2 =~= version + "."@ + arch);
    let sfx = "."@ + arch;
    assert(rest2 =~= version + sfx);
    assert(rest2.skip(rest2.len() - sfx.len()) =~= sfx);
    assert(rest2.take(rest2.len() - sfx.len()) =~= version);
}

/// One line of the installed listing for each recovered version: the
/// version itself, marked when it is the active one.
pub open spec fn spec_annotate(vs: Seq<Seq<char>>, current: Option<Seq<char>>) -> Seq<Seq<char>> {
    vs.map_values(
        |v: Seq<char>|
            if current == Some(v) {
                v + " (current)"@
            } else {
                v
            },
    )
}

/// The lines that listing the installed versions prints: the names are
/// arranged, each of the expected shape yields its version, and the line
/// of the active version is marked.
pub fn list_installed(
    installed: Vec<String>,
    current: Option<&String>,
    sys_arch: &str,
    sort: bool,
    reverse: bool,
) -> (r: Vec<String>)
    ensures
        r.deep_view() == spec_annotate(
            spec_version_items(
                spec_arranged(installed.deep_view(), sort, reverse),
                "."@ + sys_arch@,
            ),
            current.deep_view(),
        ),
{
    let arranged = arrange_strings(installed, sort, reverse);
    let sfx = concat2(".", sys_arch);
    let versions = version_items(&arranged, sfx.as_str());
    let n = versions.len();
    let ghost vs = versions.deep_view();
    let mut out: Vec<String> = Vec::new();
    let mut i: usize = 0;
    while i < n
        invariant
            0 <= i <= n,
            n == versions@.len(),
            vs == versions.deep_view(),
            out@.len() == i,
            forall|k: int|
                0 <= k < i ==> #[trigger] out.deep_view()[k] == spec_annotate(
                    vs,
                    current.deep_view(),
                )[k],
        decreases n - i,
    {
        let marked = match current {
            Some(c) => str_eq(versions[i].as_str(), c.as_str()),
            None => false,
        };
        let ghost pre = out.deep_view();
        if marked {
            let line = concat2(versions[i].as_str(), " (current)");
            out.push(line);
        } else {
            out.push(versions[i].clone());
        }
        proof {
            assert(out.deep_view() =~= pre.push(spec_annotate(vs, current.deep_view())[i as int]));
        }
        i = i + 1;
    }
    proof {
        assert(out.deep_view() =~= spec_annotate(vs, current.deep_view()));
    }
    out
}

/// The reverse of lexicographic order, for a reversed listing.
pub open spec fn lex_geq() -> spec_fn(Seq<char>, Seq<char>) -> bool {
    |a: Seq<char>, b: Seq<char>| lex_le(b, a)
}

/// With the sort asked for, the versions a listing yields are
/// non-decreasing by lexicographic order; with the reversal asked for as
/// well, non-increasing.  This holds as long as no two of the yielded
/// versions stand in a prefix relation: there, the names' order and the
/// versions' order can part ways.
pub proof fn lemma_listing_versions_order(names: Seq<Seq<char>>, sfx: Seq<char>)
    requires
        prefix_free(spec_version_items(sort_lex(names), sfx)),
    ensures
        sorted_by(
            spec_version_items(spec_arranged(names, true, false), sfx),
            lex_leq(),
        ),
        sorted_by(spec_version_items(spec_arranged(names, true, true), sfx), lex_geq()),
{
    lemma_sort_lex_ensures(names);
    lemma_version_items_sorted(sort_lex(names), sfx);
    lemma_version_items_reverse(sort_lex(names), sfx);
    let items = spec_version_items(sort_lex(names), sfx);
    let rev = items.reverse();
    assert forall|i: int, j: int| 0 <= i < j < rev.len() implies #[trigger] lex_geq()(
        rev[i],
        rev[j],
    ) by {
        assert(rev[i] == items[items.len() - 1 - i]);
        assert(rev[j] == items[items.len() - 1 - j]);
        assert(lex_leq()(items[items.len() - 1 - j], items[items.len() - 1 - i]));
    }
}

/// A sorted listing walks the underlying names in non-decreasing
/// lexicographic order; sorted and reversed, in non-increasing order.
pub proof fn lemma_listing_order(names: Seq<Seq<char>>)
    ensures
        sorted_by(spec_arranged(names, true, false), lex_leq()),
        sorted_by(spec_arranged(names, true, true), lex_geq()),
{
    lemma_sort_lex_ensures(names);
    let t = sort_lex(names);
    let rev = t.reverse();
    assert forall|i: int, j: int| 0 <= i < j < rev.len() implies #[trigger] lex_geq()(
        rev[i],
        rev[j],
    ) by {
        assert(rev[i] == t[t.len() - 1 - i]);
        assert(rev[j] == t[t.len() - 1 - j]);
        assert(lex_leq()(t[t.len() - 1 - j], t[t.len() - 1 - i]));
    }
}

} // verus!

//! Remote release archives: the scraped releases page, the local index
//! cache, version resolution and the listings derived from them.

use vstd::prelude::*;
use vstd::relations::sorted_by;

use crate::config::FgmContext;
use crate::errors::FgmError;
use crate::sorting::{lex_leq, sort_lex, sort_strings};
use crate::strings::{
    concat2, concat3, concat4, contains_seq, contains_str, ends_with, lex_le, spec_dedup,
    spec_join_lines, spec_lines, spec_replace, spec_trim, starts_with, str_eq, dedup_strings,
    join_lines, lines_of, strip_prefix_str, strip_suffix_str, trim_str,
};

verus! {

/// One remote release archive: its file name and where to fetch it.
#[derive(Debug)]
pub struct DownloadLink {
    pub filename: String,
    pub link: String,
}

/// The mathematical content of a `DownloadLink`.
pub struct DownloadLinkView {
    pub filename: Seq<char>,
    pub link: Seq<char>,
}

impl View for DownloadLink {
    type V = DownloadLinkView;

    open spec fn view(&self) -> DownloadLinkView {
        DownloadLinkView { filename: self.filename@, link: self.link@ }
    }
}

impl DeepView for DownloadLink {
    type V = DownloadLinkView;

    open spec fn deep_view(&self) -> DownloadLinkView {
        self.view()
    }
}

impl Clone for DownloadLink {
    /// A clone holds the same file name and link.
    fn clone(&self) -> (r: Self)
        ensures
            r == *self,
    {
        DownloadLink { filename: self.filename.clone(), link: self.link.clone() }
    }
}

/// The archive file name the vendor uses for a version on an architecture.
pub open spec fn spec_archive_filename(version: Seq<char>, arch: Seq<char>) -> Seq<char> {
    "go"@ + version + "."@ + arch + ".tar.gz"@
}

/// The address a release archive is downloaded from.
pub open spec fn spec_archive_link(version: Seq<char>, arch: Seq<char>) -> Seq<char> {
    "https://go.dev/dl/"@ + spec_archive_filename(version, arch)
}

impl DownloadLink {
    /// The download record a version string denotes on this architecture.
    pub fn try_from_version(version: &str, sys_arch: &str) -> (r: Result<Self, FgmError>)
        ensures
            r matches Ok(d) && d.filename@ == spec_archive_filename(version@, sys_arch@)
                && d.link@ == spec_archive_link(version@, sys_arch@),
    {
        let head = concat4("go", version, ".", sys_arch);
        let filename = concat2(head.as_str(), ".tar.gz");
        let link = concat2("https://go.dev/dl/", filename.as_str());
        proof {
            assert(filename@ =~= spec_archive_filename(version@, sys_arch@));
        }
        Ok(DownloadLink { filename, link })
    }
}

/// The suffix that closes an archive file name on this architecture.
pub open spec fn spec_archive_suffix(arch: Seq<char>) -> Seq<char> {
    "."@ + arch + ".tar.gz"@
}

/// The version string hidden in `f` between the vendor's `go` prefix and
/// the suffix `sfx`, when both are present.
pub open spec fn spec_strip_version(f: Seq<char>, sfx: Seq<char>) -> Option<Seq<char>> {
    if ends_with(f, sfx) && starts_with(f.take(f.len() - sfx.len()), "go"@) {
        Some(f.subrange("go"@.len() as int, f.len() - sfx.len()))
    } else {
        None
    }
}

/// Recovers the version between the `go` prefix and the suffix `sfx`.
pub fn strip_version(f: &str, sfx: &str) -> (r: Option<String>)
    ensures
        match r {
            Some(v) => spec_strip_version(f@, sfx@) == Some(v@),
            None => spec_strip_version(f@, sfx@) is None,
        },
{
    match strip_suffix_str(f, sfx) {
        None => None,
        Some(rest) => match strip_prefix_str(rest.as_str(), "go") {
            None => None,
            Some(v) => {
                proof {
                    assert(v@ =~= f@.subrange("go"@.len() as int, f@.len() - sfx@.len()));
                }
                Some(v)
            },
        },
    }
}

/// The versions recovered from the names in `names`, those of another
/// shape skipped, in order.
pub open spec fn spec_version_items(names: Seq<Seq<char>>, sfx: Seq<char>) -> Seq<Seq<char>>
    decreases names.len(),
{
    if names.len() == 0 {
        Seq::empty()
    } else {
        let rest = spec_version_items(names.drop_last(), sfx);
        match spec_strip_version(names.last(), sfx) {
            Some(v) => rest.push(v),
            None => rest,
        }
    }
}

/// No two distinct elements are a prefix of one another.
pub open spec fn prefix_free(vs: Seq<Seq<char>>) -> bool {
    forall|i: int, j: int|
        0 <= i < vs.len() && 0 <= j < vs.len() && vs[i] != vs[j] ==> !#[trigger] starts_with(
            vs[j],
            vs[i],
        )
}

/// A name a version was recovered from is that version between the `go`
/// prefix and the suffix.
pub proof fn lemma_strip_version_shape(f: Seq<char>, sfx: Seq<char>)
    requires
        spec_strip_version(f, sfx) is Some,
    ensures
        f == "go"@ + spec_strip_version(f, sfx)->0 + sfx,
{
    let l = f.len() - sfx.len();
    let g = "go"@.len() as int;
    let v = spec_strip_version(f, sfx)->0;
    assert(f.take(l).take(g) == "go"@);
    assert forall|i: int| 0 <= i < g implies f[i] == "go"@[i] by {
        assert(f.take(l).take(g)[i] == "go"@[i]);
    }
    assert forall|i: int| l <= i < f.len() implies f[i] == sfx[i - l] by {
        assert(f.skip(l)[i - l] == sfx[i - l]);
    }
    assert(f =~= "go"@ + v + sfx);
}

/// Versions recovered from ordered names are ordered the same way, as long
/// as neither is a prefix of the other.
pub proof fn lemma_stripped_pair(na: Seq<char>, nb: Seq<char>, sfx: Seq<char>)
    requires
        lex_le(na, nb),
        spec_strip_version(na, sfx) is Some,
        spec_strip_version(nb, sfx) is Some,
        spec_strip_version(na, sfx)->0 == spec_strip_version(nb, sfx)->0 || (!starts_with(
            spec_strip_version(nb, sfx)->0,
            spec_strip_version(na, sfx)->0,
        ) && !starts_with(spec_strip_version(na, sfx)->0, spec_strip_version(nb, sfx)->0)),
    ensures
        lex_le(spec_strip_version(na, sfx)->0, spec_strip_version(nb, sfx)->0),
{
    let va = spec_strip_version(na, sfx)->0;
    let vb = spec_strip_version(nb, sfx)->0;
    lemma_strip_version_shape(na, sfx);
    lemma_strip_version_shape(nb, sfx);
    assert(na =~= "go"@ + (va + sfx));
    assert(nb =~= "go"@ + (vb + sfx));
    crate::sorting::lemma_lex_le_cancel_prefix("go"@, va + sfx, vb + sfx);
    if va == vb {
        crate::sorting::lemma_lex_le_refl(va);
    } else {
        crate::sorting::lemma_lex_le_concat_incomparable(va, vb, sfx, sfx);
    }
}

/// The versions listed from names in non-decreasing order are themselves
/// non-decreasing, as long as no two of them stand in a prefix relation;
/// and each comes from one of the names.
pub proof fn lemma_version_items_sorted(names: Seq<Seq<char>>, sfx: Seq<char>)
    requires
        sorted_by(names, lex_leq()),
        prefix_free(spec_version_items(names, sfx)),
    ensures
        sorted_by(spec_version_items(names, sfx), lex_leq()),
        forall|k: int|
            0 <= k < spec_version_items(names, sfx).len() ==> exists|m: int|
                0 <= m < names.len() && spec_strip_version(names[m], sfx) == Some(
                    #[trigger] spec_version_items(names, sfx)[k],
                ),
    decreases names.len(),
{
    let items = spec_version_items(names, sfx);
    if names.len() > 0 {
        let d = names.drop_last();
        let items_d = spec_version_items(d, sfx);
        assert(sorted_by(d, lex_leq())) by {
            assert forall|i: int, j: int| 0 <= i < j < d.len() implies #[trigger] lex_leq()(
                d[i],
                d[j],
            ) by {
                assert(lex_leq()(names[i], names[j]));
            }
        }
        assert(prefix_free(items_d)) by {
            assert forall|i: int, j: int|
                0 <= i < items_d.len() && 0 <= j < items_d.len() && items_d[i]
                    != items_d[j] implies !#[trigger] starts_with(items_d[j], items_d[i]) by {
                assert(items_d[i] == items[i] && items_d[j] == items[j]);
            }
        }
        lemma_version_items_sorted(d, sfx);
        match spec_strip_version(names.last(), sfx) {
            Some(v) => {
                assert(items == items_d.push(v));
                assert forall|p: int, q: int| 0 <= p < q < items.len() implies #[trigger] lex_leq()(
                    items[p],
                    items[q],
                ) by {
                    if q < items.len() - 1 {
                        assert(lex_leq()(items_d[p], items_d[q]));
                    } else {
                        assert(items[p] == items_d[p]);
                        assert(items[q] == v);
                        let m = choose|m: int|
                            0 <= m < d.len() && spec_strip_version(d[m], sfx) == Some(items_d[p]);
                        assert(spec_strip_version(names[m], sfx) == Some(items[p]));
                        assert(lex_leq()(names[m], names[names.len() - 1]));
                        assert(names[names.len() - 1] == names.last());
                        lemma_stripped_pair(names[m], names.last(), sfx);
                    }
                }
                assert forall|k: int| 0 <= k < items.len() implies exists|m: int|
                    0 <= m < names.len() && spec_strip_version(names[m], sfx) == Some(
                        #[trigger] items[k],
                    ) by {
                    if k < items.len() - 1 {
                        let m = choose|m: int|
                            0 <= m < d.len() && spec_strip_version(d[m], sfx) == Some(items_d[k]);
                        assert(0 <= m < names.len() && spec_strip_version(names[m], sfx) == Some(
                            items[k],
                        ));
                    } else {
                        assert(spec_strip_version(names[names.len() - 1], sfx) == Some(items[k]));
                    }
                }
            },
            None => {
                assert(items == items_d);
                assert forall|k: int| 0 <= k < items.len() implies exists|m: int|
                    0 <= m < names.len() && spec_strip_version(names[m], sfx) == Some(
                        #[trigger] items[k],
                    ) by {
                    let m = choose|m: int|
                        0 <= m < d.len() && spec_strip_version(d[m], sfx) == Some(items_d[k]);
                    assert(0 <= m < names.len() && spec_strip_version(names[m], sfx) == Some(
                        items[k],
                    ));
                }
            },
        }
    }
}

/// Reading one leading name off a listing's names.
proof fn lemma_version_items_cons(x: Seq<char>, s: Seq<Seq<char>>, sfx: Seq<char>)
    ensures
        spec_version_items(seq![x] + s, sfx) == match spec_strip_version(x, sfx) {
            Some(v) => seq![v] + spec_version_items(s, sfx),
            None => spec_version_items(s, sfx),
        },
    decreases s.len(),
{
    let t = seq![x] + s;
    if s.len() == 0 {
        assert(t.drop_last() =~= Seq::<Seq<char>>::empty());
        assert(t.last() == x);
        assert(spec_version_items(t.drop_last(), sfx) =~= Seq::<Seq<char>>::empty());
        assert(spec_version_items(s, sfx) =~= Seq::<Seq<char>>::empty());
        match spec_strip_version(x, sfx) {
            Some(v) => {
                assert(spec_version_items(t, sfx) =~= seq![v] + spec_version_items(s, sfx));
            },
            None => {
                assert(spec_version_items(t, sfx) =~= spec_version_items(s, sfx));
            },
        }
    } else {
        assert(t.drop_last() =~= seq![x] + s.drop_last());
        assert(t.last() == s.last());
        lemma_version_items_cons(x, s.drop_last(), sfx);
        match spec_strip_version(x, sfx) {
            Some(v) => {
                match spec_strip_version(s.last(), sfx) {
                    Some(w) => {
                        assert((seq![v] + spec_version_items(s.drop_last(), sfx)).push(w) =~= seq![
                            v,
                        ] + spec_version_items(s.drop_last(), sfx).push(w));
                    },
                    None => {},
                }
            },
            None => {},
        }
    }
}

/// A listing of the names in the opposite order yields the versions in the
/// opposite order.
pub proof fn lemma_version_items_reverse(names: Seq<Seq<char>>, sfx: Seq<char>)
    ensures
        spec_version_items(names.reverse(), sfx) == spec_version_items(names, sfx).reverse(),
    decreases names.len(),
{
    if names.len() == 0 {
        assert(names.reverse() =~= names);
        assert(spec_version_items(names, sfx).reverse() =~= spec_version_items(names, sfx));
    } else {
        let d = names.drop_last();
        assert(names.reverse() =~= seq![names.last()] + d.reverse());
        lemma_version_items_cons(names.last(), d.reverse(), sfx);
        lemma_version_items_reverse(d, sfx);
        match spec_strip_version(names.last(), sfx) {
            Some(v) => {
                assert(spec_version_items(names, sfx) == spec_version_items(d, sfx).push(v));
                assert(spec_version_items(d, sfx).push(v).reverse() =~= seq![v]
                    + spec_version_items(d, sfx).reverse());
            },
            None => {
                assert(spec_version_items(names, sfx) == spec_version_items(d, sfx));
            },
        }
    }
}

/// A list's order after the optional sort and the optional reversal.
pub open spec fn spec_arranged(s: Seq<Seq<char>>, sort: bool, reverse: bool) -> Seq<Seq<char>> {
    let t = if sort {
        sort_lex(s)
    } else {
        s
    };
    if reverse {
        t.reverse()
    } else {
        t
    }
}

/// Reverses the order of the strings.
pub fn reverse_strings(v: &Vec<String>) -> (r: Vec<String>)
    ensures
        r.deep_view() == v.deep_view().reverse(),
{
    let n = v.len();
    let mut out: Vec<String> = Vec::new();
    let mut i: usize = 0;
    while i < n
        invariant
            0 <= i <= n,
            n == v@.len(),
            out@.len() == i,
            forall|k: int| 0 <= k < i ==> out.deep_view()[k] == v.deep_view()[n - 1 - k],
        decreases n - i,
    {
        let x = v[n - 1 - i].clone();
        assert(x@ == v.deep_view()[n - 1 - i]);
        let ghost pre = out.deep_view();
        out.push(x);
        proof {
            assert(out.deep_view() =~= pre.push(v.deep_view()[n - 1 - i]));
        }
        i = i + 1;
    }
    proof {
        assert(out.deep_view() =~= v.deep_view().reverse());
    }
    out
}

/// Applies the optional sort and the optional reversal.
pub fn arrange_strings(v: Vec<String>, sort: bool, reverse: bool) -> (r: Vec<String>)
    ensures
        r.deep_view() == spec_arranged(v.deep_view(), sort, reverse),
{
    let sorted = if sort {
        sort_strings(&v)
    } else {
        v
    };
    if reverse {
        reverse_strings(&sorted)
    } else {
        sorted
    }
}

/// The lines that a listing of `names` prints: each version recovered from
/// a name of the expected shape, in the arranged order.
pub fn version_items(names: &Vec<String>, sfx: &str) -> (r: Vec<String>)
    ensures
        r.deep_view() == spec_version_items(names.deep_view(), sfx@),
{
    let n = names.len();
    let mut out: Vec<String> = Vec::new();
    let mut i: usize = 0;
    proof {
        assert(names.deep_view().take(0) =~= Seq::<Seq<char>>::empty());
    }
    while i < n
        invariant
            0 <= i <= n,
            n == names@.len(),
            out.deep_view() == spec_version_items(names.deep_view().take(i as int), sfx@),
        decreases n - i,
    {
        let ghost pre = names.deep_view().take(i as int);
        let ghost post = names.deep_view().take(i + 1);
        proof {
            assert(post.drop_last() =~= pre);
            assert(post.last() == names.deep_view()[i as int]);
        }
        match strip_version(names[i].as_str(), sfx) {
            Some(v) => {
                out.push(v);
                proof {
                    assert(out.deep_view() =~= spec_version_items(post, sfx@));
                }
            },
            None => {
                proof {
                    assert(out.deep_view() =~= spec_version_items(post, sfx@));
                }
            },
        }
        i = i + 1;
    }
    proof {
        assert(names.deep_view().take(n as int) =~= names.deep_view());
    }
    out
}

/// The names of the archives in `links`, in order.
pub open spec fn spec_filenames(links: Seq<DownloadLinkView>) -> Seq<Seq<char>> {
    links.map_values(|l: DownloadLinkView| l.filename)
}

/// The archive names in `remotes`, in order.
pub fn filenames_of(remotes: &Vec<DownloadLink>) -> (r: Vec<String>)
    ensures
        r.deep_view() == spec_filenames(remotes.deep_view()),
{
    let n = remotes.len();
    let mut out: Vec<String> = Vec::new();
    let mut i: usize = 0;
    while i < n
        invariant
            0 <= i <= n,
            n == remotes@.len(),
            out@.len() == i,
            forall|k: int| 0 <= k < i ==> out.deep_view()[k] == remotes.deep_view()[k].filename,
        decreases n - i,
    {
        let ghost pre = out.deep_view();
        out.push(remotes[i].filename.clone());
        proof {
            assert(out.deep_view() =~= pre.push(remotes.deep_view()[i as int].filename));
        }
        i = i + 1;
    }
    proof {
        assert(out.deep_view() =~= spec_filenames(remotes.deep_view()));
    }
    out
}

/// The version lines that listing `remotes` prints, after the optional
/// sort by archive name and the optional reversal.
pub fn list_remote(remotes: &Vec<DownloadLink>, sys_arch: &str, sort: bool, reverse: bool) -> (r:
    Vec<String>)
    ensures
        r.deep_view() == spec_version_items(
            spec_arranged(spec_filenames(remotes.deep_view()), sort, reverse),
            spec_archive_suffix(sys_arch@),
        ),
{
    let names = filenames_of(remotes);
    let arranged = arrange_strings(names, sort, reverse);
    let sfx = concat3(".", sys_arch, ".tar.gz");
    proof {
        assert(sfx@ =~= spec_archive_suffix(sys_arch@));
    }
    version_items(&arranged, sfx.as_str())
}

/// The remote record whose archive name is exactly the one this version
/// denotes on this architecture; the first such when there are several.
pub fn find_link(remotes: &Vec<DownloadLink>, version: &str, sys_arch: &str) -> (r: Result<
    DownloadLink,
    FgmError,
>)
    ensures
        r is Ok <==> exists|i: int|
            0 <= i < remotes.deep_view().len() && #[trigger] remotes.deep_view()[i].filename
                == spec_archive_filename(version@, sys_arch@),
        r matches Ok(d) ==> exists|i: int|
            {
                &&& 0 <= i < remotes.deep_view().len()
                &&& #[trigger] remotes.deep_view()[i] == d@
                &&& d@.filename == spec_archive_filename(version@, sys_arch@)
                &&& forall|k: int|
                    0 <= k < i ==> #[trigger] remotes.deep_view()[k].filename
                        != spec_archive_filename(version@, sys_arch@)
            },
        r is Err ==> r == Err::<DownloadLink, FgmError>(FgmError::VersionNotFound),
{
    let head = concat4("go", version, ".", sys_arch);
    let expected = concat2(head.as_str(), ".tar.gz");
    proof {
        assert(expected@ =~= spec_archive_filename(version@, sys_arch@));
    }
    let n = remotes.len();
    let mut i: usize = 0;
    while i < n
        invariant
            0 <= i <= n,
            n == remotes@.len(),
            expected@ == spec_archive_filename(version@, sys_arch@),
            forall|k: int|
                0 <= k < i ==> #[trigger] remotes.deep_view()[k].filename != spec_archive_filename(
                    version@,
                    sys_arch@,
                ),
        decreases n - i,
    {
        if str_eq(remotes[i].filename.as_str(), expected.as_str()) {
            assert(remotes.deep_view()[i as int].filename == spec_archive_filename(
                version@,
                sys_arch@,
            ));
            return Ok(remotes[i].clone());
        }
        i = i + 1;
    }
    Err(FgmError::VersionNotFound)
}

/// What anchors a CSS selector picks out of a page: for each, its text and
/// its optional reference.
pub uninterp spec fn anchors_of(html: Seq<char>, selector: Seq<char>) -> Seq<
    (Seq<char>, Option<Seq<char>>),
>;

/// The selector that picks the download anchors out of the releases page.
pub open spec fn spec_download_selector() -> Seq<char> {
    "td.filename a.download"@
}

/// Relies on scraper::Selector::parse, scraper::Html::parse_document and
/// Html::select: the selector written below is the one `spec_download_selector`
/// denotes and is well-formed CSS, so parsing it cannot fail; the page is
/// then parsed, and for each element the selector matches, in document
/// order, the element's text (its text nodes joined by one space) and its
/// `href` attribute are handed back.  The result depends on the page alone.
#[verifier::external_body]
fn select_download_anchors(html: &str) -> (r: Vec<(String, Option<String>)>)
    ensures
        r.deep_view() == anchors_of(html@, spec_download_selector()),
{
    let sel = scraper::Selector::parse("td.filename a.download").unwrap();
    let doc = scraper::Html::parse_document(html);
    doc.select(&sel).map(
        |e| (e.text().collect::<Vec<_>>().join(" "), e.value().attr("href").map(|h| h.to_string())),
    ).collect()
}

/// Whether some anchor carries no reference.
pub open spec fn spec_missing_href(anchors: Seq<(Seq<char>, Option<Seq<char>>)>) -> bool {
    exists|i: int| 0 <= i < anchors.len() && (#[trigger] anchors[i]).1 is None
}

/// The download records among `anchors`: each anchor whose text holds the
/// architecture token, its text as the archive name and its reference
/// resolved against the vendor's host.
pub open spec fn spec_scraped(
    anchors: Seq<(Seq<char>, Option<Seq<char>>)>,
    arch: Seq<char>,
) -> Seq<DownloadLinkView>
    decreases anchors.len(),
{
    if anchors.len() == 0 {
        Seq::empty()
    } else {
        let rest = spec_scraped(anchors.drop_last(), arch);
        match anchors.last().1 {
            Some(h) => if contains_seq(anchors.last().0, arch) {
                rest.push(DownloadLinkView { filename: anchors.last().0, link: "https://go.dev"@ + h })
            } else {
                rest
            },
            None => rest,
        }
    }
}

/// The download records among the scraped anchors, or the error for an
/// anchor without a reference.
pub fn remotes_from_anchors(anchors: &Vec<(String, Option<String>)>, sys_arch: &str) -> (r: Result<
    Vec<DownloadLink>,
    FgmError,
>)
    ensures
        r is Err <==> spec_missing_href(anchors.deep_view()),
        r is Err ==> r == Err::<Vec<DownloadLink>, FgmError>(FgmError::MissingHref),
        r matches Ok(v) ==> v.deep_view() == spec_scraped(anchors.deep_view(), sys_arch@),
{
    let n = anchors.len();
    let mut out: Vec<DownloadLink> = Vec::new();
    let mut i: usize = 0;
    proof {
        assert(anchors.deep_view().take(0) =~= Seq::<(Seq<char>, Option<Seq<char>>)>::empty());
    }
    while i < n
        invariant
            0 <= i <= n,
            n == anchors@.len(),
            forall|k: int| 0 <= k < i ==> !((#[trigger] anchors.deep_view()[k]).1 is None),
            out.deep_view() == spec_scraped(anchors.deep_view().take(i as int), sys_arch@),
        decreases n - i,
    {
        let ghost pre = anchors.deep_view().take(i as int);
        let ghost post = anchors.deep_view().take(i + 1);
        proof {
            assert(post.drop_last() =~= pre);
            assert(post.last() == anchors.deep_view()[i as int]);
        }
        match &anchors[i].1 {
            None => {
                assert(anchors.deep_view()[i as int].1 is None);
                return Err(FgmError::MissingHref);
            },
            Some(href) => {
                let link = concat2("https://go.dev", href.as_str());
                if contains_str(anchors[i].0.as_str(), sys_arch) {
                    let ghost predv = out.deep_view();
                    out.push(DownloadLink { filename: anchors[i].0.clone(), link });
                    proof {
                        assert(out.deep_view() =~= predv.push(
                            DownloadLinkView {
                                filename: anchors.deep_view()[i as int].0,
                                link: "https://go.dev"@ + anchors.deep_view()[i as int].1->0,
                            },
                        ));
                    }
                }
                proof {
                    assert(out.deep_view() =~= spec_scraped(post, sys_arch@));
                }
            },
        }
        i = i + 1;
    }
    proof {
        assert(anchors.deep_view().take(n as int) =~= anchors.deep_view());
    }
    Ok(out)
}

/// The download record a cached version string denotes.
pub open spec fn spec_index_entry(version: Seq<char>, arch: Seq<char>) -> DownloadLinkView {
    DownloadLinkView {
        filename: spec_archive_filename(version, arch),
        link: spec_archive_link(version, arch),
    }
}

/// The download records a cache file holds: one per line, the line trimmed
/// and read as a version string.
pub open spec fn spec_parse_index(content: Seq<char>, arch: Seq<char>) -> Seq<DownloadLinkView> {
    spec_lines(content).map_values(|l: Seq<char>| spec_index_entry(spec_trim(l), arch))
}

/// Reads the cache file's text back into download records.
pub fn parse_remotes_index(content: &str, sys_arch: &str) -> (r: Vec<DownloadLink>)
    ensures
        r.deep_view() == spec_parse_index(content@, sys_arch@),
{
    let lines = lines_of(content);
    let n = lines.len();
    let mut out: Vec<DownloadLink> = Vec::new();
    let mut i: usize = 0;
    while i < n
        invariant
            0 <= i <= n,
            n == lines@.len(),
            lines.deep_view() == spec_lines(content@),
            out@.len() == i,
            forall|k: int|
                0 <= k < i ==> #[trigger] out.deep_view()[k] == spec_index_entry(
                    spec_trim(spec_lines(content@)[k]),
                    sys_arch@,
                ),
        decreases n - i,
    {
        let version = trim_str(lines[i].as_str());
        match DownloadLink::try_from_version(version.as_str(), sys_arch) {
            Ok(d) => {
                let ghost pre = out.deep_view();
                out.push(d);
                proof {
                    assert(out.deep_view() =~= pre.push(
                        spec_index_entry(spec_trim(spec_lines(content@)[i as int]), sys_arch@),
                    ));
                }
            },
            Err(_) => {
                proof {
                    assert(false);
                }
            },
        }
        i = i + 1;
    }
    proof {
        assert(out.deep_view() =~= spec_parse_index(content@, sys_arch@));
    }
    out
}

/// The text written to the cache file for `links`: the version of each
/// archive of the expected shape, repetitions dropped, one per line.
pub open spec fn spec_cache_content(links: Seq<DownloadLinkView>, arch: Seq<char>) -> Seq<char> {
    spec_join_lines(spec_dedup(spec_version_items(spec_filenames(links), spec_archive_suffix(arch))))
}

/// Renders the cache file's text for `remotes`.
pub fn cache_content(remotes: &Vec<DownloadLink>, sys_arch: &str) -> (r: String)
    ensures
        r@ == spec_cache_content(remotes.deep_view(), sys_arch@),
{
    let names = filenames_of(remotes);
    let sfx = concat3(".", sys_arch, ".tar.gz");
    proof {
        assert(sfx@ =~= spec_archive_suffix(sys_arch@));
    }
    let versions = version_items(&names, sfx.as_str());
    let unique = dedup_strings(&versions);
    join_lines(&unique)
}

/// The distinct versions of `links`, as the cache file keeps them.
pub open spec fn spec_cached_versions(links: Seq<DownloadLinkView>, arch: Seq<char>) -> Seq<
    Seq<char>,
> {
    spec_dedup(spec_version_items(spec_filenames(links), spec_archive_suffix(arch)))
}

/// A version string that survives the cache file unchanged: non-empty,
/// without a newline, and with no blank character at its edges.
pub open spec fn clean_version(v: Seq<char>) -> bool {
    v.len() > 0 && !v.contains('\n') && !crate::strings::is_ws(v[0]) && !crate::strings::is_ws(
        v.last(),
    )
}

/// No element of the list repeats.
pub open spec fn distinct_elems(s: Seq<Seq<char>>) -> bool {
    forall|i: int, j: int| #![trigger s[i], s[j]] 0 <= i < j < s.len() ==> s[i] != s[j]
}

/// Writing the cache for `links` and reading it back yields exactly one
/// record per distinct version, in order.  This holds as long as each of
/// those versions is clean: such a version neither vanishes between the
/// lines nor changes under the read's trimming.
pub proof fn lemma_cache_round_trip(links: Seq<DownloadLinkView>, arch: Seq<char>)
    requires
        forall|k: int|
            0 <= k < spec_cached_versions(links, arch).len() ==> clean_version(
                #[trigger] spec_cached_versions(links, arch)[k],
            ),
    ensures
        spec_parse_index(spec_cache_content(links, arch), arch) == spec_cached_versions(
            links,
            arch,
        ).map_values(|v: Seq<char>| spec_index_entry(v, arch)),
{
    let u = spec_cached_versions(links, arch);
    assert forall|k: int| 0 <= k < u.len() implies (#[trigger] u[k]).len() > 0 && !u[k].contains(
        '\n',
    ) && u[k].last() != '\r' by {
        assert(!crate::strings::is_ws(u[k].last()));
    }
    crate::strings::lemma_lines_of_join(u);
    assert forall|k: int| 0 <= k < u.len() implies crate::strings::spec_trim(#[trigger] u[k])
        == u[k] by {
        crate::strings::lemma_trim_identity(u[k]);
    }
    assert(spec_parse_index(spec_cache_content(links, arch), arch) =~= u.map_values(
        |v: Seq<char>| spec_index_entry(v, arch),
    ));
}

/// The version written into an archive name is recovered from it exactly.
pub proof fn lemma_strip_archive_filename(v: Seq<char>, arch: Seq<char>)
    ensures
        spec_strip_version(spec_archive_filename(v, arch), spec_archive_suffix(arch)) == Some(v),
{
    let f = spec_archive_filename(v, arch);
    let sfx = spec_archive_suffix(arch);
    let l = f.len() - sfx.len();
    assert(f =~= "go"@ + v + sfx);
    assert(f.skip(l) =~= sfx);
    assert(f.take(l) =~= "go"@ + v);
    assert(f.take(l).take("go"@.len() as int) =~= "go"@);
    assert(f.subrange("go"@.len() as int, l) =~= v);
}

/// A list without repetitions is its own de-duplication.
pub proof fn lemma_dedup_distinct(s: Seq<Seq<char>>)
    requires
        distinct_elems(s),
    ensures
        spec_dedup(s) == s,
    decreases s.len(),
{
    if s.len() > 0 {
        let d = s.drop_last();
        assert forall|i: int, j: int|
            #![trigger d[i], d[j]]
            0 <= i < j < d.len() implies d[i] != d[j] by {
            assert(s[i] != s[j]);
        }
        assert(!d.contains(s.last())) by {
            if d.contains(s.last()) {
                let i = choose|i: int| 0 <= i < d.len() && d[i] == s.last();
                assert(s[i] == s[s.len() - 1]);
            }
        }
        lemma_dedup_distinct(d);
        assert(spec_dedup(s) =~= s);
    }
}

/// Listing the records a cache holds yields exactly its version lines.
pub proof fn lemma_items_of_entries(u: Seq<Seq<char>>, arch: Seq<char>)
    ensures
        spec_version_items(
            spec_filenames(u.map_values(|v: Seq<char>| spec_index_entry(v, arch))),
            spec_archive_suffix(arch),
        ) == u,
    decreases u.len(),
{
    let names = spec_filenames(u.map_values(|v: Seq<char>| spec_index_entry(v, arch)));
    let sfx = spec_archive_suffix(arch);
    if u.len() == 0 {
        assert(spec_version_items(names, sfx) =~= u);
    } else {
        let d = u.drop_last();
        lemma_items_of_entries(d, arch);
        let names_d = spec_filenames(d.map_values(|v: Seq<char>| spec_index_entry(v, arch)));
        assert(names.drop_last() =~= names_d);
        assert(names.last() == spec_archive_filename(u.last(), arch));
        lemma_strip_archive_filename(u.last(), arch);
        assert(spec_version_items(names, sfx) == spec_version_items(names_d, sfx).push(u.last()));
        assert(spec_version_items(names, sfx) =~= u);
    }
}

/// With no sort asked for, a listing read back from the written cache
/// prints the same versions as the listing that was scraped, in the same
/// order — and reversed alike when the reversal is asked for.  This holds
/// as long as the scraped versions are distinct (the cache keeps one line
/// per distinct version) and each is clean.
pub proof fn lemma_cached_listing_identity(
    links: Seq<DownloadLinkView>,
    arch: Seq<char>,
    reverse: bool,
)
    requires
        distinct_elems(spec_version_items(spec_filenames(links), spec_archive_suffix(arch))),
        forall|k: int|
            0 <= k < spec_version_items(spec_filenames(links), spec_archive_suffix(arch)).len()
                ==> clean_version(
                #[trigger] spec_version_items(spec_filenames(links), spec_archive_suffix(arch))[k],
            ),
    ensures
        spec_version_items(
            spec_arranged(
                spec_filenames(spec_parse_index(spec_cache_content(links, arch), arch)),
                false,
                reverse,
            ),
            spec_archive_suffix(arch),
        ) == spec_version_items(
            spec_arranged(spec_filenames(links), false, reverse),
            spec_archive_suffix(arch),
        ),
{
    let sfx = spec_archive_suffix(arch);
    let items0 = spec_version_items(spec_filenames(links), sfx);
    lemma_dedup_distinct(items0);
    assert(spec_cached_versions(links, arch) == items0);
    assert forall|k: int|
        0 <= k < spec_cached_versions(links, arch).len() implies clean_version(
        #[trigger] spec_cached_versions(links, arch)[k],
    ) by {
        assert(spec_cached_versions(links, arch)[k] == items0[k]);
    }
    lemma_cache_round_trip(links, arch);
    lemma_items_of_entries(items0, arch);
    let parsed = spec_parse_index(spec_cache_content(links, arch), arch);
    assert(spec_version_items(spec_filenames(parsed), sfx) == items0);
    if reverse {
        lemma_version_items_reverse(spec_filenames(parsed), sfx);
        lemma_version_items_reverse(spec_filenames(links), sfx);
    }
}

/// Where the remote index is to come from on one invocation.
pub enum RemotesPlan {
    /// The cache already answers: these are its records.
    UseCache(Vec<DownloadLink>),
    /// The releases page must be fetched.
    Fetch,
}

/// Decides where the remote index comes from: the cache answers exactly
/// when a refresh is not requested and the cache file was readable, and
/// what it answers is its parsed content; nothing else is consulted.
pub fn plan_remotes(cf: &FgmContext, cache: Option<&String>, sys_arch: &str) -> (p: RemotesPlan)
    ensures
        p is Fetch <==> (cf.update || cache is None),
        p matches RemotesPlan::UseCache(v) ==> cache matches Some(c) && v.deep_view()
            == spec_parse_index(c@, sys_arch@),
{
    if cf.update {
        RemotesPlan::Fetch
    } else {
        match cache {
            Some(c) => RemotesPlan::UseCache(parse_remotes_index(c.as_str(), sys_arch)),
            None => RemotesPlan::Fetch,
        }
    }
}

/// The download records scraped from the releases page's text, with the
/// text to write to the cache file.  Scraping succeeds exactly when every
/// anchor the download selector matches carries a reference.
pub fn remotes_from_html(html: &str, sys_arch: &str) -> (r: Result<
    (Vec<DownloadLink>, String),
    FgmError,
>)
    ensures
        r is Ok <==> !spec_missing_href(anchors_of(html@, spec_download_selector())),
        r matches Ok(p) ==> {
            let anchors = anchors_of(html@, spec_download_selector());
            &&& p.0.deep_view() == spec_scraped(anchors, sys_arch@)
            &&& p.1@ == spec_cache_content(spec_scraped(anchors, sys_arch@), sys_arch@)
        },
        r is Err ==> r == Err::<(Vec<DownloadLink>, String), FgmError>(FgmError::MissingHref),
{
    let anchors = select_download_anchors(html);
    let remotes = match remotes_from_anchors(&anchors, sys_arch) {
        Ok(v) => v,
        Err(e) => {
            return Err(e);
        },
    };
    let cache = cache_content(&remotes, sys_arch);
    Ok((remotes, cache))
}

} // verus!

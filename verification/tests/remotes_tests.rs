use fgm::config::FgmContext;
use fgm::errors::FgmError;
use fgm::remotes::{
    cache_content, find_link, list_remote, parse_remotes_index, plan_remotes, remotes_from_anchors,
    remotes_from_html, DownloadLink, RemotesPlan,
};

const ARCH: &str = "linux-amd64";

fn link(version: &str) -> DownloadLink {
    DownloadLink::try_from_version(version, ARCH).unwrap()
}

#[test]
fn try_from_version_builds_the_vendor_names() {
    let d = link("1.22.3");
    assert_eq!(d.filename, "go1.22.3.linux-amd64.tar.gz");
    assert_eq!(d.link, "https://go.dev/dl/go1.22.3.linux-amd64.tar.gz");
}

#[test]
fn find_link_wants_an_exact_name() {
    let remotes = vec![link("1.21.0"), link("1.22.3")];
    let d = find_link(&remotes, "1.22.3", ARCH).unwrap();
    assert_eq!(d.filename, "go1.22.3.linux-amd64.tar.gz");
    // A substring of an offered version is not an offered version.
    assert_eq!(
        find_link(&remotes, "1.22", ARCH).err(),
        Some(FgmError::VersionNotFound)
    );
}

#[test]
fn find_link_takes_the_first_of_equal_names() {
    let mut first = link("1.22.3");
    first.link = "https://go.dev/dl/first".to_string();
    let mut second = link("1.22.3");
    second.link = "https://go.dev/dl/second".to_string();
    let remotes = vec![first, second];
    let d = find_link(&remotes, "1.22.3", ARCH).unwrap();
    assert_eq!(d.link, "https://go.dev/dl/first");
}

#[test]
fn list_remote_sorts_strips_and_skips() {
    let mut remotes = vec![link("1.22.3"), link("1.21.0")];
    remotes.push(DownloadLink {
        filename: "foo.linux-amd64.msi".to_string(),
        link: "https://go.dev/dl/foo.linux-amd64.msi".to_string(),
    });
    let lines = list_remote(&remotes, ARCH, true, false);
    assert_eq!(lines, vec!["1.21.0".to_string(), "1.22.3".to_string()]);
    let reversed = list_remote(&remotes, ARCH, true, true);
    assert_eq!(reversed, vec!["1.22.3".to_string(), "1.21.0".to_string()]);
}

#[test]
fn list_remote_without_sort_keeps_the_given_order() {
    let remotes = vec![link("1.22.3"), link("1.21.0")];
    let lines = list_remote(&remotes, ARCH, false, false);
    assert_eq!(lines, vec!["1.22.3".to_string(), "1.21.0".to_string()]);
}

#[test]
fn parse_remotes_index_reads_one_version_per_line() {
    let remotes = parse_remotes_index("1.22.3\n 1.21.0 \n", ARCH);
    assert_eq!(remotes.len(), 2);
    assert_eq!(remotes[0].filename, "go1.22.3.linux-amd64.tar.gz");
    assert_eq!(remotes[1].filename, "go1.21.0.linux-amd64.tar.gz");
    assert_eq!(remotes[1].link, "https://go.dev/dl/go1.21.0.linux-amd64.tar.gz");
}

#[test]
fn parse_remotes_index_of_nothing_is_empty() {
    assert_eq!(parse_remotes_index("", ARCH).len(), 0);
}

#[test]
fn cache_content_deduplicates_and_joins() {
    let remotes = vec![link("1.22.3"), link("1.21.0"), link("1.22.3")];
    assert_eq!(cache_content(&remotes, ARCH), "1.22.3\n1.21.0");
}

#[test]
fn cache_content_skips_names_of_another_shape() {
    let remotes = vec![
        DownloadLink {
            filename: "foo.linux-amd64.msi".to_string(),
            link: "https://go.dev/dl/foo".to_string(),
        },
        link("1.21.0"),
    ];
    assert_eq!(cache_content(&remotes, ARCH), "1.21.0");
}

#[test]
fn remotes_from_anchors_filters_by_architecture_and_resolves_links() {
    let anchors = vec![
        (
            "go1.22.3.linux-amd64.tar.gz".to_string(),
            Some("/dl/go1.22.3.linux-amd64.tar.gz".to_string()),
        ),
        (
            "go1.22.3.windows-amd64.msi".to_string(),
            Some("/dl/go1.22.3.windows-amd64.msi".to_string()),
        ),
        (
            "go1.21.0.linux-amd64.tar.gz".to_string(),
            Some("/dl/go1.21.0.linux-amd64.tar.gz".to_string()),
        ),
    ];
    let remotes = remotes_from_anchors(&anchors, ARCH).unwrap();
    assert_eq!(remotes.len(), 2);
    assert_eq!(remotes[0].filename, "go1.22.3.linux-amd64.tar.gz");
    assert_eq!(
        remotes[0].link,
        "https://go.dev/dl/go1.22.3.linux-amd64.tar.gz"
    );
    assert_eq!(remotes[1].filename, "go1.21.0.linux-amd64.tar.gz");
}

#[test]
fn an_anchor_without_href_is_fatal() {
    let anchors = vec![(
        "go1.22.3.windows-amd64.msi".to_string(),
        None::<String>,
    )];
    assert_eq!(
        remotes_from_anchors(&anchors, ARCH).err(),
        Some(FgmError::MissingHref)
    );
}

#[test]
fn remotes_from_html_scrapes_the_download_anchors() {
    let html = "<html><body><table>\
        <tr><td class=\"filename\"><a class=\"download\" href=\"/dl/go1.22.3.linux-amd64.tar.gz\">go1.22.3.linux-amd64.tar.gz</a></td></tr>\
        <tr><td class=\"filename\"><a class=\"download\" href=\"/dl/go1.22.3.windows-amd64.msi\">go1.22.3.windows-amd64.msi</a></td></tr>\
        <tr><td class=\"filename\"><a class=\"download\" href=\"/dl/go1.21.0.linux-amd64.tar.gz\">go1.21.0.linux-amd64.tar.gz</a></td></tr>\
        <tr><td><a href=\"/elsewhere\">elsewhere</a></td></tr>\
        </table></body></html>";
    let (remotes, cache) = remotes_from_html(html, ARCH).unwrap();
    assert_eq!(remotes.len(), 2);
    assert_eq!(remotes[0].filename, "go1.22.3.linux-amd64.tar.gz");
    assert_eq!(
        remotes[0].link,
        "https://go.dev/dl/go1.22.3.linux-amd64.tar.gz"
    );
    assert_eq!(remotes[1].filename, "go1.21.0.linux-amd64.tar.gz");
    assert_eq!(cache, "1.22.3\n1.21.0");
}

#[test]
fn plan_remotes_uses_the_cache_exactly_when_it_may() {
    let ctx = FgmContext::default();
    let cache = "1.22.3\n1.21.0".to_string();
    match plan_remotes(&ctx, Some(&cache), ARCH) {
        RemotesPlan::UseCache(remotes) => {
            assert_eq!(remotes.len(), 2);
            assert_eq!(remotes[0].filename, "go1.22.3.linux-amd64.tar.gz");
        }
        RemotesPlan::Fetch => panic!("a readable cache must answer"),
    }
    assert!(matches!(
        plan_remotes(&ctx, None, ARCH),
        RemotesPlan::Fetch
    ));
    let mut refresh = FgmContext::default();
    refresh.update = true;
    assert!(matches!(
        plan_remotes(&refresh, Some(&cache), ARCH),
        RemotesPlan::Fetch
    ));
}

#[test]
fn fetch_then_cache_then_cache_only_gives_the_same_listing() {
    // A fresh start: defaults apply and there is no cache file, so the
    // first listing must fetch.
    let ctx = FgmContext::default();
    assert!(matches!(plan_remotes(&ctx, None, ARCH), RemotesPlan::Fetch));

    // The fetch brings the page below; scraping it yields the records and
    // the text that the cache file is then written with.
    let html = "<html><body><table>\
        <tr><td class=\"filename\"><a class=\"download\" href=\"/dl/go1.22.3.linux-amd64.tar.gz\">go1.22.3.linux-amd64.tar.gz</a></td></tr>\
        <tr><td class=\"filename\"><a class=\"download\" href=\"/dl/go1.21.0.linux-amd64.tar.gz\">go1.21.0.linux-amd64.tar.gz</a></td></tr>\
        </table></body></html>";
    let (remotes, cache) = remotes_from_html(html, ARCH).unwrap();
    let first = list_remote(&remotes, ARCH, true, false);

    // A second listing without a refresh: the cache alone answers, and
    // the listing is the same.
    match plan_remotes(&ctx, Some(&cache), ARCH) {
        RemotesPlan::UseCache(cached) => {
            let second = list_remote(&cached, ARCH, true, false);
            assert_eq!(first, second);
            assert_eq!(second, vec!["1.21.0".to_string(), "1.22.3".to_string()]);
            // Unsorted and reversed listings agree between the two sources
            // as well.
            assert_eq!(
                list_remote(&remotes, ARCH, false, false),
                list_remote(&cached, ARCH, false, false)
            );
            assert_eq!(
                list_remote(&remotes, ARCH, false, true),
                list_remote(&cached, ARCH, false, true)
            );
        }
        RemotesPlan::Fetch => panic!("the cache must be the only source"),
    }
}

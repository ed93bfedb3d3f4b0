use ixfeed::config::ensure_https_scheme;
use ixfeed::config::mask_key;
use ixfeed::config::select_sources;
use ixfeed::config::SelectError;
use ixfeed::Source;
use ixfeed::SourceType;

fn source(id: i64, url: &str) -> Source {
    Source {
        id,
        source_type: "feed".to_string(),
        source_url: url.to_string(),
        api_key: "key".to_string(),
        host: "example.com".to_string(),
        searchengine: "api.indexnow.org".to_string(),
        first_run_completed: false,
    }
}

#[test]
fn mask_key_hides_the_middle() {
    assert_eq!(mask_key(""), "(not set)");
    assert_eq!(mask_key("a"), "a***");
    assert_eq!(mask_key("abc"), "ab***");
    assert_eq!(mask_key("abcdefgh"), "ab***");
    assert_eq!(mask_key("abcdefghi"), "abcd...fghi");
}

#[test]
fn no_sources_is_an_error() {
    let sources: Vec<Source> = Vec::new();
    assert!(matches!(
        select_sources(&sources, None),
        Err(SelectError::NoSources)
    ));
}

#[test]
fn without_filter_every_source_is_processed_in_order() {
    let sources = vec![source(1, "https://a.com/f"), source(2, "https://b.com/f")];
    let picked = select_sources(&sources, None).unwrap();
    assert_eq!(picked.len(), 2);
    assert_eq!(picked[0].id, 1);
    assert_eq!(picked[1].id, 2);
}

#[test]
fn filter_keeps_only_named_identities() {
    let sources = vec![
        source(1, "https://a.com/f"),
        source(2, "https://b.com/f"),
        source(3, "https://c.com/f"),
    ];
    let ids = vec![3, 1];
    let picked = select_sources(&sources, Some(&ids)).unwrap();
    assert_eq!(picked.len(), 2);
    assert_eq!(picked[0].id, 1);
    assert_eq!(picked[1].id, 3);
}

#[test]
fn filter_matching_nothing_is_an_error() {
    let sources = vec![source(1, "https://a.com/f")];
    let ids = vec![9];
    assert!(matches!(
        select_sources(&sources, Some(&ids)),
        Err(SelectError::NoMatch)
    ));
}

#[test]
fn missing_scheme_gets_the_secure_prefix() {
    assert_eq!(
        ensure_https_scheme("example.com/feed.xml").as_deref(),
        Some("https://example.com/feed.xml")
    );
}

#[test]
fn insecure_scheme_is_upgraded() {
    assert_eq!(
        ensure_https_scheme("http://example.com/feed.xml").as_deref(),
        Some("https://example.com/feed.xml")
    );
}

#[test]
fn secure_scheme_is_kept() {
    assert_eq!(
        ensure_https_scheme("https://example.com/feed.xml").as_deref(),
        Some("https://example.com/feed.xml")
    );
}

#[test]
fn other_schemes_are_refused() {
    assert_eq!(ensure_https_scheme("ftp://example.com/feed.xml"), None);
}

#[test]
fn kind_tokens_round_trip() {
    assert!(matches!(SourceType::of_kind("sitemap"), SourceType::Sitemap));
    assert!(matches!(SourceType::of_kind("feed"), SourceType::Feed));
    // Any unknown token falls back to the feed kind.
    assert!(matches!(SourceType::of_kind("rss"), SourceType::Feed));
    assert_eq!(SourceType::Sitemap.kind_token(), "sitemap");
    assert_eq!(SourceType::Feed.kind_token(), "feed");
    assert_eq!(SourceType::Feed.label(), "RSS/Atom/JSON Feed");
    assert_eq!(SourceType::Sitemap.label(), "Sitemap XML");
}

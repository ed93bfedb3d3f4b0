use ixfeed::feed::normalize_feed_entries;
use ixfeed::feed::RawFeedEntry;
use ixfeed::UrlEntry;

// The same field extraction the driver performs on a parsed feed, so the
// verified selection rule is exercised against the real parser's output.
fn parse_to_raw(bytes: &[u8]) -> Result<Vec<RawFeedEntry>, String> {
    let feed = feed_rs::parser::parse(bytes).map_err(|e| e.to_string())?;
    Ok(feed
        .entries
        .into_iter()
        .map(|e| RawFeedEntry {
            link: e.links.first().map(|l| l.href.clone()),
            id: e.id,
            updated: e.updated.map(|d| d.to_rfc3339()),
            published: e.published.map(|d| d.to_rfc3339()),
        })
        .collect())
}

fn feed_urls(bytes: &[u8]) -> Result<Vec<UrlEntry>, String> {
    Ok(normalize_feed_entries(&parse_to_raw(bytes)?))
}

#[test]
fn rss_items_become_entries_with_publication_markers() {
    let rss = br#"<?xml version="1.0"?>
<rss version="2.0"><channel>
  <title>t</title><link>https://example.com</link><description>d</description>
  <item>
    <title>one</title>
    <link>https://example.com/1</link>
    <pubDate>Mon, 01 Jan 2024 00:00:00 GMT</pubDate>
  </item>
  <item>
    <title>two</title>
    <link>https://example.com/2</link>
  </item>
</channel></rss>"#;
    let entries = feed_urls(rss).unwrap();
    assert_eq!(entries.len(), 2);
    assert_eq!(entries[0].url, "https://example.com/1");
    assert_eq!(entries[0].date, Some("2024-01-01T00:00:00+00:00".to_string()));
    assert_eq!(entries[1].url, "https://example.com/2");
    assert_eq!(entries[1].date, None);
}

#[test]
fn atom_update_stamp_wins_over_publication() {
    let atom = br#"<?xml version="1.0"?>
<feed xmlns="http://www.w3.org/2005/Atom">
  <title>t</title><id>urn:f</id><updated>2024-03-01T00:00:00Z</updated>
  <entry>
    <title>one</title>
    <id>urn:e1</id>
    <link href="https://example.com/1"/>
    <published>2024-01-01T00:00:00Z</published>
    <updated>2024-02-01T00:00:00Z</updated>
  </entry>
</feed>"#;
    let entries = feed_urls(atom).unwrap();
    assert_eq!(entries.len(), 1);
    assert_eq!(entries[0].url, "https://example.com/1");
    assert_eq!(entries[0].date, Some("2024-02-01T00:00:00+00:00".to_string()));
}

#[test]
fn unparsable_bytes_are_an_error() {
    assert!(feed_urls(b"this is no feed at all").is_err());
}

#[test]
fn entry_without_link_falls_back_to_its_identifier() {
    let raw = vec![RawFeedEntry {
        link: None,
        id: "urn:item:1".to_string(),
        updated: None,
        published: Some("2024-01-01T00:00:00+00:00".to_string()),
    }];
    let entries = normalize_feed_entries(&raw);
    assert_eq!(entries.len(), 1);
    assert_eq!(entries[0].url, "urn:item:1");
    assert_eq!(entries[0].date, Some("2024-01-01T00:00:00+00:00".to_string()));
}

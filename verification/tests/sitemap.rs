use ixfeed::sitemap::is_sitemap_index;
use ixfeed::sitemap::parse_sitemap;
use ixfeed::sitemap::parse_sitemap_index;

#[test]
fn test_parse_sitemap() {
    let xml = r#"<?xml version="1.0" encoding="UTF-8"?>
<urlset xmlns="http://www.sitemaps.org/schemas/sitemap/0.9">
  <url>
    <loc>https://example.com/page1</loc>
    <lastmod>2026-01-15</lastmod>
  </url>
  <url>
    <loc>https://example.com/page2</loc>
  </url>
</urlset>"#;

    let entries = parse_sitemap(xml);
    assert_eq!(entries.len(), 2);
    assert_eq!(entries[0].url, "https://example.com/page1");
    assert_eq!(entries[0].date, Some("2026-01-15".to_string()));
    assert_eq!(entries[1].url, "https://example.com/page2");
    assert_eq!(entries[1].date, None);
}

#[test]
fn test_parse_sitemap_index() {
    let xml = r#"<?xml version="1.0" encoding="UTF-8"?>
<sitemapindex xmlns="http://www.sitemaps.org/schemas/sitemap/0.9">
  <sitemap>
    <loc>https://example.com/posts-sitemap.xml</loc>
  </sitemap>
  <sitemap>
    <loc>https://example.com/pages-sitemap.xml</loc>
  </sitemap>
</sitemapindex>"#;

    let sitemaps = parse_sitemap_index(xml);
    assert_eq!(sitemaps.len(), 2);
    assert_eq!(sitemaps[0], "https://example.com/posts-sitemap.xml");
    assert_eq!(sitemaps[1], "https://example.com/pages-sitemap.xml");
}

#[test]
fn index_detection_by_marker_token() {
    assert!(is_sitemap_index("<sitemapindex xmlns=\"x\"></sitemapindex>"));
    assert!(!is_sitemap_index("<urlset><url><loc>a</loc></url></urlset>"));
}

#[test]
fn entry_without_loc_is_skipped() {
    let xml = "<urlset><url><lastmod>2026-01-01</lastmod></url>\
               <url><loc>https://example.com/a</loc></url></urlset>";
    let entries = parse_sitemap(xml);
    assert_eq!(entries.len(), 1);
    assert_eq!(entries[0].url, "https://example.com/a");
}

#[test]
fn empty_loc_is_skipped() {
    let xml = "<urlset><url><loc>   </loc></url></urlset>";
    let entries = parse_sitemap(xml);
    assert_eq!(entries.len(), 0);
}

#[test]
fn values_are_trimmed() {
    let xml = "<urlset><url><loc>\n   https://example.com/a \n</loc>\
               <lastmod>\t 2026-02-03 </lastmod></url></urlset>";
    let entries = parse_sitemap(xml);
    assert_eq!(entries.len(), 1);
    assert_eq!(entries[0].url, "https://example.com/a");
    assert_eq!(entries[0].date, Some("2026-02-03".to_string()));
}

#[test]
fn whitespace_lastmod_is_absent_not_error() {
    let xml = "<urlset><url><loc>https://example.com/a</loc><lastmod>  </lastmod></url></urlset>";
    let entries = parse_sitemap(xml);
    assert_eq!(entries.len(), 1);
    assert_eq!(entries[0].date, None);
}

#[test]
fn empty_document_yields_nothing() {
    assert_eq!(parse_sitemap("").len(), 0);
    assert_eq!(parse_sitemap_index("").len(), 0);
}

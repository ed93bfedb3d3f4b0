use ixfeed::traverse::traverse_documents;
use ixfeed::traverse::Document;
use ixfeed::traverse::FetchStep;
use ixfeed::traverse::Traversal;
use ixfeed::traverse::MAX_DEPTH;
use ixfeed::UrlEntry;

fn doc_for(url: &str) -> String {
    if url == "https://example.com/sitemap.xml" {
        "<sitemapindex>\
         <sitemap><loc>https://example.com/a.xml</loc></sitemap>\
         <sitemap><loc>https://example.com/b.xml</loc></sitemap>\
         </sitemapindex>"
            .to_string()
    } else if url == "https://example.com/a.xml" {
        "<urlset>\
         <url><loc>https://example.com/1</loc><lastmod>2026-01-01</lastmod></url>\
         <url><loc>https://example.com/2</loc></url>\
         </urlset>"
            .to_string()
    } else {
        // b.xml repeats URL 2 and adds URL 3.
        "<urlset>\
         <url><loc>https://example.com/2</loc><lastmod>2026-02-02</lastmod></url>\
         <url><loc>https://example.com/3</loc></url>\
         </urlset>"
            .to_string()
    }
}

fn run(mut t: Traversal, doc: impl Fn(&str) -> String) -> (Vec<UrlEntry>, usize, usize) {
    let mut fetches = 0usize;
    let mut skips = 0usize;
    loop {
        match t.next_step() {
            FetchStep::Done => break,
            FetchStep::SkipTooDeep(_) => {
                skips += 1;
            }
            FetchStep::Fetch(url) => {
                fetches += 1;
                let body = doc(&url);
                t.on_document(&body);
            }
        }
    }
    (t.into_entries(), fetches, skips)
}

#[test]
fn tree_is_flattened_in_first_discovery_order_without_duplicates() {
    let t = Traversal::new("https://example.com/sitemap.xml".to_string());
    let (entries, fetches, skips) = run(t, doc_for);
    assert_eq!(fetches, 3);
    assert_eq!(skips, 0);
    let urls: Vec<&str> = entries.iter().map(|e| e.url.as_str()).collect();
    assert_eq!(
        urls,
        vec![
            "https://example.com/1",
            "https://example.com/2",
            "https://example.com/3"
        ]
    );
    // The duplicate of URL 2 was dropped; its first discovery kept its marker.
    assert_eq!(entries[1].date, None);
    assert_eq!(entries[0].date, Some("2026-01-01".to_string()));
}

#[test]
fn self_referencing_tree_terminates_at_the_depth_ceiling() {
    // Every document is an index pointing back at itself.
    let t = Traversal::new("https://example.com/loop.xml".to_string());
    let (entries, fetches, skips) = run(t, |_| {
        "<sitemapindex><sitemap><loc>https://example.com/loop.xml</loc></sitemap></sitemapindex>"
            .to_string()
    });
    // Depths 0 through MAX_DEPTH are fetched; the reference queued at
    // MAX_DEPTH + 1 is skipped, not fetched.
    assert_eq!(fetches, MAX_DEPTH + 1);
    assert_eq!(skips, 1);
    assert_eq!(entries.len(), 0);
}

#[test]
fn leaf_root_yields_its_entries() {
    let t = Traversal::new("https://example.com/a.xml".to_string());
    let (entries, fetches, _) = run(t, doc_for);
    assert_eq!(fetches, 1);
    assert_eq!(entries.len(), 2);
    assert_eq!(entries[0].url, "https://example.com/1");
}

fn chain_doc(url: &str, chain_len: usize) -> String {
    // c0 .. c{chain_len-1} are indexes, each pointing one level deeper;
    // the last link points at a leaf.
    for i in 0..chain_len {
        if url == format!("https://example.com/c{}.xml", i) {
            let next = if i + 1 < chain_len {
                format!("https://example.com/c{}.xml", i + 1)
            } else {
                "https://example.com/leaf.xml".to_string()
            };
            return format!(
                "<sitemapindex><sitemap><loc>{}</loc></sitemap></sitemapindex>",
                next
            );
        }
    }
    "<urlset><url><loc>https://example.com/deep</loc></url></urlset>".to_string()
}

#[test]
fn leaf_at_the_ceiling_is_still_visited() {
    // Indexes at depths 0..=9, leaf at depth 10: everything is fetched.
    let t = Traversal::new("https://example.com/c0.xml".to_string());
    let (entries, fetches, skips) = run(t, |u| chain_doc(u, MAX_DEPTH));
    assert_eq!(fetches, MAX_DEPTH + 1);
    assert_eq!(skips, 0);
    assert_eq!(entries.len(), 1);
    assert_eq!(entries[0].url, "https://example.com/deep");
}

#[test]
fn leaf_one_past_the_ceiling_is_skipped() {
    // Indexes at depths 0..=10, leaf at depth 11: the leaf is skipped and
    // the traversal still succeeds, with nothing collected.
    let t = Traversal::new("https://example.com/c0.xml".to_string());
    let (entries, fetches, skips) = run(t, |u| chain_doc(u, MAX_DEPTH + 1));
    assert_eq!(fetches, MAX_DEPTH + 1);
    assert_eq!(skips, 1);
    assert_eq!(entries.len(), 0);
}

fn document(url: &str, body: &str) -> Document {
    Document {
        url: url.to_string(),
        body: body.to_string(),
    }
}

#[test]
fn document_map_traversal_collects_leaves_in_order() {
    let docs = vec![
        document(
            "https://example.com/sitemap.xml",
            "<sitemapindex>\
             <sitemap><loc>https://example.com/a.xml</loc></sitemap>\
             <sitemap><loc>https://example.com/b.xml</loc></sitemap>\
             </sitemapindex>",
        ),
        document(
            "https://example.com/a.xml",
            "<urlset>\
             <url><loc>https://example.com/1</loc><lastmod>2026-01-01</lastmod></url>\
             <url><loc>https://example.com/2</loc></url>\
             </urlset>",
        ),
        document(
            "https://example.com/b.xml",
            "<urlset>\
             <url><loc>https://example.com/2</loc><lastmod>2026-02-02</lastmod></url>\
             <url><loc>https://example.com/3</loc></url>\
             </urlset>",
        ),
    ];
    let entries =
        traverse_documents("https://example.com/sitemap.xml".to_string(), &docs).unwrap();
    let urls: Vec<&str> = entries.iter().map(|e| e.url.as_str()).collect();
    assert_eq!(
        urls,
        vec![
            "https://example.com/1",
            "https://example.com/2",
            "https://example.com/3"
        ]
    );
    // URL 2 keeps the marker of its first discovery (none).
    assert_eq!(entries[1].date, None);
}

#[test]
fn cyclic_document_map_terminates() {
    let docs = vec![document(
        "https://example.com/loop.xml",
        "<sitemapindex><sitemap><loc>https://example.com/loop.xml</loc></sitemap>\
         </sitemapindex>",
    )];
    let entries = traverse_documents("https://example.com/loop.xml".to_string(), &docs).unwrap();
    assert_eq!(entries.len(), 0);
}

#[test]
fn missing_document_fails_the_whole_traversal_naming_it() {
    let docs = vec![document(
        "https://example.com/sitemap.xml",
        "<sitemapindex><sitemap><loc>https://example.com/gone.xml</loc></sitemap>\
         </sitemapindex>",
    )];
    let err =
        traverse_documents("https://example.com/sitemap.xml".to_string(), &docs).unwrap_err();
    assert_eq!(err, "https://example.com/gone.xml");
}

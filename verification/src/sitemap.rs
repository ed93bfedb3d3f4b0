//! The sitemap grammar: classification of a document as an index or a leaf,
//! and extraction of URL entries and child sitemap references.
//!
//! The grammar is deliberately tolerant rather than a full XML parser: a
//! document is an index when the index-marker token occurs anywhere in it; a
//! block runs from an opening token to the next closing token; a value is
//! the whitespace-trimmed text between the first `<loc>` (or `<lastmod>`)
//! and the following closing tag inside the block. A missing or empty
//! `<lastmod>` is not an error: the entry simply carries no marker.

use vstd::prelude::*;

use crate::entry::UrlEntry;
use crate::entry::UrlEntryView;
use crate::textscan::find_from;
use crate::textscan::find_from_spec;
use crate::textscan::lemma_find_from_spec_some;
use crate::textscan::trim_range;
use crate::textscan::trim_spec;
use crate::textscan::chars_of;

verus! {

/// Opening token of a URL entry block.
pub open spec fn url_open_pat() -> Seq<char> {
    seq!['<', 'u', 'r', 'l']
}

/// Closing token of a URL entry block.
pub open spec fn url_close_pat() -> Seq<char> {
    seq!['<', '/', 'u', 'r', 'l', '>']
}

/// Opening token of a child sitemap block.
pub open spec fn sitemap_open_pat() -> Seq<char> {
    seq!['<', 's', 'i', 't', 'e', 'm', 'a', 'p']
}

/// Closing token of a child sitemap block.
pub open spec fn sitemap_close_pat() -> Seq<char> {
    seq!['<', '/', 's', 'i', 't', 'e', 'm', 'a', 'p', '>']
}

/// Token whose presence marks a document as a sitemap index.
pub open spec fn index_marker_pat() -> Seq<char> {
    seq!['<', 's', 'i', 't', 'e', 'm', 'a', 'p', 'i', 'n', 'd', 'e', 'x']
}

/// Opening tag of a location value.
pub open spec fn loc_open_pat() -> Seq<char> {
    seq!['<', 'l', 'o', 'c', '>']
}

/// Closing tag of a location value.
pub open spec fn loc_close_pat() -> Seq<char> {
    seq!['<', '/', 'l', 'o', 'c', '>']
}

/// Opening tag of a modification-marker value.
pub open spec fn lastmod_open_pat() -> Seq<char> {
    seq!['<', 'l', 'a', 's', 't', 'm', 'o', 'd', '>']
}

/// Closing tag of a modification-marker value.
pub open spec fn lastmod_close_pat() -> Seq<char> {
    seq!['<', '/', 'l', 'a', 's', 't', 'm', 'o', 'd', '>']
}

/// The text between the first `open` tag of `s` and the following `close`
/// tag.
pub open spec fn tag_value_spec(s: Seq<char>, open: Seq<char>, close: Seq<char>) -> Option<
    Seq<char>,
> {
    match find_from_spec(s, open, 0) {
        None => None,
        Some(i) => match find_from_spec(s, close, i + open.len()) {
            None => None,
            Some(j) => Some(s.subrange(i + open.len(), j)),
        },
    }
}

/// The trimmed value of the first `open`..`close` tag pair of `s`; `None`
/// when the pair is absent or the trimmed value is empty.
pub open spec fn trimmed_tag_spec(s: Seq<char>, open: Seq<char>, close: Seq<char>) -> Option<
    Seq<char>,
> {
    match tag_value_spec(s, open, close) {
        None => None,
        Some(v) => {
            let t = trim_spec(v);
            if t.len() == 0 {
                None
            } else {
                Some(t)
            }
        },
    }
}

/// The entry a URL block yields: its trimmed location, when present and
/// nonempty, with its trimmed modification marker, when present and
/// nonempty.
pub open spec fn entry_of_block(block: Seq<char>) -> Option<UrlEntryView> {
    match trimmed_tag_spec(block, loc_open_pat(), loc_close_pat()) {
        None => None,
        Some(url) => Some(
            UrlEntryView {
                url,
                date: trimmed_tag_spec(block, lastmod_open_pat(), lastmod_close_pat()),
            },
        ),
    }
}

/// The entries of a leaf sitemap document, scanning URL blocks from `from`.
pub open spec fn parse_sitemap_from(s: Seq<char>, from: int) -> Seq<UrlEntryView>
    decreases s.len() - from + 1,
    when 0 <= from
    via parse_sitemap_from_dec
{
    match find_from_spec(s, url_open_pat(), from) {
        None => Seq::empty(),
        Some(i) => match find_from_spec(s, url_close_pat(), i) {
            None => Seq::empty(),
            Some(j) => {
                let bend = j + url_close_pat().len();
                let rest = parse_sitemap_from(s, bend);
                match entry_of_block(s.subrange(i, bend)) {
                    Some(e) => seq![e] + rest,
                    None => rest,
                }
            },
        },
    }
}

#[via_fn]
proof fn parse_sitemap_from_dec(s: Seq<char>, from: int) {
    match find_from_spec(s, url_open_pat(), from) {
        None => {},
        Some(i) => {
            lemma_find_from_spec_some(s, url_open_pat(), from, i);
            match find_from_spec(s, url_close_pat(), i) {
                None => {},
                Some(j) => {
                    lemma_find_from_spec_some(s, url_close_pat(), i, j);
                },
            }
        },
    }
}

/// The entries of a leaf sitemap document.
pub open spec fn sitemap_entries(s: Seq<char>) -> Seq<UrlEntryView> {
    parse_sitemap_from(s, 0)
}

/// The child references of a sitemap index document, scanning blocks from
/// `from`.
pub open spec fn parse_index_from(s: Seq<char>, from: int) -> Seq<Seq<char>>
    decreases s.len() - from + 1,
    when 0 <= from
    via parse_index_from_dec
{
    match find_from_spec(s, sitemap_open_pat(), from) {
        None => Seq::empty(),
        Some(i) => match find_from_spec(s, sitemap_close_pat(), i) {
            None => Seq::empty(),
            Some(j) => {
                let bend = j + sitemap_close_pat().len();
                let rest = parse_index_from(s, bend);
                match trimmed_tag_spec(s.subrange(i, bend), loc_open_pat(), loc_close_pat()) {
                    Some(u) => seq![u] + rest,
                    None => rest,
                }
            },
        },
    }
}

#[via_fn]
proof fn parse_index_from_dec(s: Seq<char>, from: int) {
    match find_from_spec(s, sitemap_open_pat(), from) {
        None => {},
        Some(i) => {
            lemma_find_from_spec_some(s, sitemap_open_pat(), from, i);
            match find_from_spec(s, sitemap_close_pat(), i) {
                None => {},
                Some(j) => {
                    lemma_find_from_spec_some(s, sitemap_close_pat(), i, j);
                },
            }
        },
    }
}

/// The child references of a sitemap index document.
pub open spec fn index_references(s: Seq<char>) -> Seq<Seq<char>> {
    parse_index_from(s, 0)
}

/// Whether a document is a sitemap index: the index-marker token occurs in
/// it.
pub open spec fn is_index_doc(s: Seq<char>) -> bool {
    find_from_spec(s, index_marker_pat(), 0) is Some
}

fn url_open_vec() -> (v: Vec<char>)
    ensures
        v@ == url_open_pat(),
{
    let mut v: Vec<char> = Vec::new();
    v.push('<');
    v.push('u');
    v.push('r');
    v.push('l');
    proof {
        assert(v@ =~= url_open_pat());
    }
    v
}

fn url_close_vec() -> (v: Vec<char>)
    ensures
        v@ == url_close_pat(),
{
    let mut v: Vec<char> = Vec::new();
    v.push('<');
    v.push('/');
    v.push('u');
    v.push('r');
    v.push('l');
    v.push('>');
    proof {
        assert(v@ =~= url_close_pat());
    }
    v
}

fn sitemap_open_vec() -> (v: Vec<char>)
    ensures
        v@ == sitemap_open_pat(),
{
    let mut v: Vec<char> = Vec::new();
    v.push('<');
    v.push('s');
    v.push('i');
    v.push('t');
    v.push('e');
    v.push('m');
    v.push('a');
    v.push('p');
    proof {
        assert(v@ =~= sitemap_open_pat());
    }
    v
}

fn sitemap_close_vec() -> (v: Vec<char>)
    ensures
        v@ == sitemap_close_pat(),
{
    let mut v: Vec<char> = Vec::new();
    v.push('<');
    v.push('/');
    v.push('s');
    v.push('i');
    v.push('t');
    v.push('e');
    v.push('m');
    v.push('a');
    v.push('p');
    v.push('>');
    proof {
        assert(v@ =~= sitemap_close_pat());
    }
    v
}

fn index_marker_vec() -> (v: Vec<char>)
    ensures
        v@ == index_marker_pat(),
{
    let mut v: Vec<char> = Vec::new();
    v.push('<');
    v.push('s');
    v.push('i');
    v.push('t');
    v.push('e');
    v.push('m');
    v.push('a');
    v.push('p');
    v.push('i');
    v.push('n');
    v.push('d');
    v.push('e');
    v.push('x');
    proof {
        assert(v@ =~= index_marker_pat());
    }
    v
}

fn loc_open_vec() -> (v: Vec<char>)
    ensures
        v@ == loc_open_pat(),
{
    let mut v: Vec<char> = Vec::new();
    v.push('<');
    v.push('l');
    v.push('o');
    v.push('c');
    v.push('>');
    proof {
        assert(v@ =~= loc_open_pat());
    }
    v
}

fn loc_close_vec() -> (v: Vec<char>)
    ensures
        v@ == loc_close_pat(),
{
    let mut v: Vec<char> = Vec::new();
    v.push('<');
    v.push('/');
    v.push('l');
    v.push('o');
    v.push('c');
    v.push('>');
    proof {
        assert(v@ =~= loc_close_pat());
    }
    v
}

fn lastmod_open_vec() -> (v: Vec<char>)
    ensures
        v@ == lastmod_open_pat(),
{
    let mut v: Vec<char> = Vec::new();
    v.push('<');
    v.push('l');
    v.push('a');
    v.push('s');
    v.push('t');
    v.push('m');
    v.push('o');
    v.push('d');
    v.push('>');
    proof {
        assert(v@ =~= lastmod_open_pat());
    }
    v
}

fn lastmod_close_vec() -> (v: Vec<char>)
    ensures
        v@ == lastmod_close_pat(),
{
    let mut v: Vec<char> = Vec::new();
    v.push('<');
    v.push('/');
    v.push('l');
    v.push('a');
    v.push('s');
    v.push('t');
    v.push('m');
    v.push('o');
    v.push('d');
    v.push('>');
    proof {
        assert(v@ =~= lastmod_close_pat());
    }
    v
}

/// Copies `s[lo..hi]` into a fresh vector.
fn copy_range(s: &Vec<char>, lo: usize, hi: usize) -> (r: Vec<char>)
    requires
        lo <= hi <= s@.len(),
    ensures
        r@ == s@.subrange(lo as int, hi as int),
{
    let mut r: Vec<char> = Vec::new();
    let mut k: usize = lo;
    while k < hi
        invariant
            lo <= k <= hi <= s@.len(),
            r@ == s@.subrange(lo as int, k as int),
        decreases hi - k,
    {
        r.push(s[k]);
        proof {
            assert(s@.subrange(lo as int, k + 1) =~= s@.subrange(lo as int, k as int).push(
                s@[k as int],
            ));
        }
        k += 1;
    }
    r
}

/// Bounds of the value of the first `open`..`close` pair in `block`, as
/// [`tag_value_spec`] defines it.
fn tag_value(block: &Vec<char>, open: &Vec<char>, close: &Vec<char>) -> (r: Option<(usize, usize)>)
    ensures
        match r {
            Some(ab) => ab.0 <= ab.1 <= block@.len() && tag_value_spec(block@, open@, close@)
                == Some(block@.subrange(ab.0 as int, ab.1 as int)),
            None => tag_value_spec(block@, open@, close@) is None,
        },
{
    let n = block.len();
    match find_from(block, open, 0) {
        None => None,
        Some(i) => {
            proof {
                lemma_find_from_spec_some(block@, open@, 0, i as int);
                assert(i + open@.len() <= n);
            }
            let a = i + open.len();
            match find_from(block, close, a) {
                None => None,
                Some(j) => {
                    proof {
                        lemma_find_from_spec_some(block@, close@, a as int, j as int);
                    }
                    Some((a, j))
                },
            }
        },
    }
}

/// The trimmed value of the first `open`..`close` pair of the block
/// `content[blo..bhi]`, extracted from `content`; `None` when the pair is
/// absent or the value trims to nothing.
fn extract_tag(
    content: &str,
    blo: usize,
    bhi: usize,
    block: &Vec<char>,
    open: &Vec<char>,
    close: &Vec<char>,
) -> (r: Option<String>)
    requires
        blo <= bhi <= content@.len(),
        block@ == content@.subrange(blo as int, bhi as int),
    ensures
        r.deep_view() == trimmed_tag_spec(block@, open@, close@),
{
    match tag_value(block, open, close) {
        None => None,
        Some((a, b)) => {
            let (ta, tb) = trim_range(block, a, b);
            if ta == tb {
                proof {
                    assert(block@.subrange(ta as int, ta as int) =~= Seq::<char>::empty());
                }
                None
            } else {
                let s = content.substring_char(blo + ta, blo + tb).to_owned();
                proof {
                    assert(content@.subrange(blo + ta, blo + tb) =~= block@.subrange(
                        ta as int,
                        tb as int,
                    ));
                }
                Some(s)
            }
        },
    }
}

/// Parses a leaf sitemap document into its URL entries, in document order.
pub fn parse_sitemap(content: &str) -> (r: Vec<UrlEntry>)
    ensures
        r.deep_view() == sitemap_entries(content@),
{
    let cs = chars_of(content);
    let open = url_open_vec();
    let close = url_close_vec();
    let loc_o = loc_open_vec();
    let loc_c = loc_close_vec();
    let lm_o = lastmod_open_vec();
    let lm_c = lastmod_close_vec();
    let mut r: Vec<UrlEntry> = Vec::new();
    let n = cs.len();
    let mut pos: usize = 0;
    let mut done = false;
    proof {
        assert(r.deep_view() + parse_sitemap_from(content@, 0) =~= parse_sitemap_from(
            content@,
            0,
        ));
    }
    while !done
        invariant
            n == cs@.len(),
            cs@ == content@,
            open@ == url_open_pat(),
            close@ == url_close_pat(),
            loc_o@ == loc_open_pat(),
            loc_c@ == loc_close_pat(),
            lm_o@ == lastmod_open_pat(),
            lm_c@ == lastmod_close_pat(),
            pos <= cs@.len(),
            sitemap_entries(content@) == r.deep_view() + parse_sitemap_from(
                content@,
                pos as int,
            ),
            done ==> parse_sitemap_from(content@, pos as int) == Seq::<UrlEntryView>::empty(),
        decreases cs@.len() - pos + (if done {
            0int
        } else {
            1int
        }),
    {
        match find_from(&cs, &open, pos) {
            None => {
                done = true;
            },
            Some(i) => {
                proof {
                    lemma_find_from_spec_some(cs@, open@, pos as int, i as int);
                }
                match find_from(&cs, &close, i) {
                    None => {
                        done = true;
                    },
                    Some(j) => {
                        proof {
                            lemma_find_from_spec_some(cs@, close@, i as int, j as int);
                            assert(j + close@.len() <= n);
                        }
                        let bend = j + close.len();
                        let block = copy_range(&cs, i, bend);
                        let ghost pre = r.deep_view();
                        let ghost e_spec = entry_of_block(block@);
                        match extract_tag(content, i, bend, &block, &loc_o, &loc_c) {
                            None => {
                                proof {
                                    assert(pre + (Seq::<UrlEntryView>::empty()
                                        + parse_sitemap_from(content@, bend as int))
                                        =~= pre + parse_sitemap_from(content@, bend as int));
                                }
                            },
                            Some(url) => {
                                let date = extract_tag(content, i, bend, &block, &lm_o, &lm_c);
                                let ghost uview = url@;
                                let ghost dview = date.deep_view();
                                r.push(UrlEntry { url, date });
                                proof {
                                    let e = UrlEntryView { url: uview, date: dview };
                                    assert(e_spec == Some(e));
                                    assert(r.deep_view() =~= pre.push(e));
                                    assert(pre + (seq![e] + parse_sitemap_from(
                                        content@,
                                        bend as int,
                                    )) =~= pre.push(e) + parse_sitemap_from(content@, bend as int));
                                }
                            },
                        }
                        pos = bend;
                    },
                }
            },
        }
    }
    proof {
        assert(r.deep_view() + Seq::<UrlEntryView>::empty() =~= r.deep_view());
    }
    r
}

/// Parses a sitemap index document into its child references, in document
/// order.
pub fn parse_sitemap_index(content: &str) -> (r: Vec<String>)
    ensures
        r.deep_view() == index_references(content@),
{
    let cs = chars_of(content);
    let open = sitemap_open_vec();
    let close = sitemap_close_vec();
    let loc_o = loc_open_vec();
    let loc_c = loc_close_vec();
    let mut r: Vec<String> = Vec::new();
    let n = cs.len();
    let mut pos: usize = 0;
    let mut done = false;
    proof {
        assert(r.deep_view() + parse_index_from(content@, 0) =~= parse_index_from(content@, 0));
    }
    while !done
        invariant
            n == cs@.len(),
            cs@ == content@,
            open@ == sitemap_open_pat(),
            close@ == sitemap_close_pat(),
            loc_o@ == loc_open_pat(),
            loc_c@ == loc_close_pat(),
            pos <= cs@.len(),
            index_references(content@) == r.deep_view() + parse_index_from(content@, pos as int),
            done ==> parse_index_from(content@, pos as int) == Seq::<Seq<char>>::empty(),
        decreases cs@.len() - pos + (if done {
            0int
        } else {
            1int
        }),
    {
        match find_from(&cs, &open, pos) {
            None => {
                done = true;
            },
            Some(i) => {
                proof {
                    lemma_find_from_spec_some(cs@, open@, pos as int, i as int);
                }
                match find_from(&cs, &close, i) {
                    None => {
                        done = true;
                    },
                    Some(j) => {
                        proof {
                            lemma_find_from_spec_some(cs@, close@, i as int, j as int);
                            assert(j + close@.len() <= n);
                        }
                        let bend = j + close.len();
                        let block = copy_range(&cs, i, bend);
                        let ghost pre = r.deep_view();
                        match extract_tag(content, i, bend, &block, &loc_o, &loc_c) {
                            None => {
                                proof {
                                    assert(pre + (Seq::<Seq<char>>::empty() + parse_index_from(
                                        content@,
                                        bend as int,
                                    )) =~= pre + parse_index_from(content@, bend as int));
                                }
                            },
                            Some(url) => {
                                let ghost uview = url@;
                                r.push(url);
                                proof {
                                    assert(r.deep_view() =~= pre.push(uview));
                                    assert(pre + (seq![uview] + parse_index_from(
                                        content@,
                                        bend as int,
                                    )) =~= pre.push(uview) + parse_index_from(
                                        content@,
                                        bend as int,
                                    ));
                                }
                            },
                        }
                        pos = bend;
                    },
                }
            },
        }
    }
    proof {
        assert(r.deep_view() + Seq::<Seq<char>>::empty() =~= r.deep_view());
    }
    r
}

/// Whether a document is a sitemap index rather than a leaf sitemap.
pub fn is_sitemap_index(content: &str) -> (r: bool)
    ensures
        r == is_index_doc(content@),
{
    let cs = chars_of(content);
    let pat = index_marker_vec();
    match find_from(&cs, &pat, 0) {
        Some(_) => true,
        None => false,
    }
}

} // verus!

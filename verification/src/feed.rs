//! Syndication-feed handling: the wire formats themselves are out of the
//! library's scope — the driver parses them with a feed-parsing library and
//! hands over each entry's fields as the plain values of [`RawFeedEntry`].
//! The selection of each entry's URL and modification marker is verified
//! here, for every value the driver can hand back.

use vstd::prelude::*;

use crate::entry::UrlEntry;
use crate::entry::UrlEntryView;

verus! {

/// One feed entry as the parser hands it over: the first link, the entry
/// identifier, and the update and publication stamps already rendered as
/// opaque strings.
pub struct RawFeedEntry {
    pub link: Option<String>,
    pub id: String,
    pub updated: Option<String>,
    pub published: Option<String>,
}

/// Mathematical value of a [`RawFeedEntry`].
pub ghost struct RawFeedEntryView {
    pub link: Option<Seq<char>>,
    pub id: Seq<char>,
    pub updated: Option<Seq<char>>,
    pub published: Option<Seq<char>>,
}

impl View for RawFeedEntry {
    type V = RawFeedEntryView;

    open spec fn view(&self) -> RawFeedEntryView {
        RawFeedEntryView {
            link: self.link.deep_view(),
            id: self.id@,
            updated: self.updated.deep_view(),
            published: self.published.deep_view(),
        }
    }
}

impl DeepView for RawFeedEntry {
    type V = RawFeedEntryView;

    open spec fn deep_view(&self) -> RawFeedEntryView {
        self.view()
    }
}

/// How a raw feed entry is normalized: its URL is the first link, or the
/// entry identifier when no link is given; its marker is the update stamp,
/// or the publication stamp when no update stamp is given.
pub open spec fn normalize_raw(r: RawFeedEntryView) -> UrlEntryView {
    UrlEntryView {
        url: match r.link {
            Some(l) => l,
            None => r.id,
        },
        date: match r.updated {
            Some(u) => Some(u),
            None => r.published,
        },
    }
}

/// The normalized form of a parsed feed, entry by entry, in feed order.
pub open spec fn normalized_seq(rs: Seq<RawFeedEntryView>) -> Seq<UrlEntryView> {
    rs.map_values(|r: RawFeedEntryView| normalize_raw(r))
}

/// Normalizes parsed feed entries into URL entries.
pub fn normalize_feed_entries(raw: &Vec<RawFeedEntry>) -> (r: Vec<UrlEntry>)
    ensures
        r.deep_view() == normalized_seq(raw.deep_view()),
{
    let n = raw.len();
    let mut r: Vec<UrlEntry> = Vec::new();
    let mut i: usize = 0;
    while i < n
        invariant
            n == raw.deep_view().len(),
            i <= n,
            r.deep_view().len() == i,
            forall|k: int|
                0 <= k < i ==> r.deep_view()[k] == normalize_raw(raw.deep_view()[k]),
        decreases n - i,
    {
        let e = &raw[i];
        let url = match &e.link {
            Some(l) => l.clone(),
            None => e.id.clone(),
        };
        let date = match &e.updated {
            Some(u) => Some(u.clone()),
            None => match &e.published {
                Some(p) => Some(p.clone()),
                None => None,
            },
        };
        let ghost pre = r.deep_view();
        r.push(UrlEntry { url, date });
        proof {
            assert(r.deep_view() =~= pre.push(normalize_raw(raw.deep_view()[i as int])));
        }
        i += 1;
    }
    proof {
        assert(r.deep_view() =~= normalized_seq(raw.deep_view()));
    }
    r
}

} // verus!

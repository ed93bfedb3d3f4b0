//! Shared data model: URL entries produced by traversal or feed parsing,
//! classified submission entries, and the configured source record.

use vstd::prelude::*;
use vstd::string::StringExecFns;

verus! {

/// A URL discovered in a sitemap or feed, with its optional modification
/// marker. The marker is an opaque string: it is compared only for equality,
/// never parsed as a calendar date.
#[derive(Clone, Debug)]
pub struct UrlEntry {
    pub url: String,
    pub date: Option<String>,
}

/// Mathematical value of a [`UrlEntry`]: the URL and marker as character
/// sequences.
pub ghost struct UrlEntryView {
    pub url: Seq<char>,
    pub date: Option<Seq<char>>,
}

impl View for UrlEntry {
    type V = UrlEntryView;

    open spec fn view(&self) -> UrlEntryView {
        UrlEntryView { url: self.url@, date: self.date.deep_view() }
    }
}

impl DeepView for UrlEntry {
    type V = UrlEntryView;

    open spec fn deep_view(&self) -> UrlEntryView {
        self.view()
    }
}

impl UrlEntry {
    /// Builds an entry from its parts.
    pub fn new(url: String, date: Option<String>) -> (r: UrlEntry)
        ensures
            r@.url == url@,
            r@.date == date.deep_view(),
    {
        UrlEntry { url, date }
    }

    /// An exact copy of the entry.
    pub fn duplicate(&self) -> (r: UrlEntry)
        ensures
            r@ == self@,
    {
        UrlEntry {
            url: self.url.clone(),
            date: match &self.date {
                Some(d) => Some(d.clone()),
                None => None,
            },
        }
    }
}

/// Why an entry belongs to the submission set: it was never recorded before,
/// or its fresh marker differs from the recorded one.
#[derive(Clone, Debug)]
pub enum SubmitReason {
    New,
    Modified { date: String },
}

/// Mathematical value of a [`SubmitReason`].
pub ghost enum SubmitReasonView {
    New,
    Modified { date: Seq<char> },
}

impl View for SubmitReason {
    type V = SubmitReasonView;

    open spec fn view(&self) -> SubmitReasonView {
        match self {
            SubmitReason::New => SubmitReasonView::New,
            SubmitReason::Modified { date } => SubmitReasonView::Modified { date: date@ },
        }
    }
}

/// A URL to submit, together with the reason it was selected.
#[derive(Clone, Debug)]
pub struct SubmitEntry {
    pub url: String,
    pub reason: SubmitReason,
}

/// Mathematical value of a [`SubmitEntry`].
pub ghost struct SubmitEntryView {
    pub url: Seq<char>,
    pub reason: SubmitReasonView,
}

impl View for SubmitEntry {
    type V = SubmitEntryView;

    open spec fn view(&self) -> SubmitEntryView {
        SubmitEntryView { url: self.url@, reason: self.reason@ }
    }
}

impl DeepView for SubmitEntry {
    type V = SubmitEntryView;

    open spec fn deep_view(&self) -> SubmitEntryView {
        self.view()
    }
}

/// What a submission entry says of itself: `new`, or `modified on` its
/// fresh marker.
pub open spec fn reason_text(v: SubmitReasonView) -> Seq<char> {
    match v {
        SubmitReasonView::New => "new"@,
        SubmitReasonView::Modified { date } => "modified on "@ + date,
    }
}

impl SubmitEntry {
    /// An exact copy of the entry.
    pub fn duplicate(&self) -> (r: SubmitEntry)
        ensures
            r@ == self@,
    {
        SubmitEntry {
            url: self.url.clone(),
            reason: match &self.reason {
                SubmitReason::New => SubmitReason::New,
                SubmitReason::Modified { date } => SubmitReason::Modified { date: date.clone() },
            },
        }
    }
}

impl SubmitReason {
    /// The reason in words, as the driver reports it.
    pub fn describe(&self) -> (r: String)
        ensures
            r@ == reason_text(self@),
    {
        match self {
            SubmitReason::New => "new".to_owned(),
            SubmitReason::Modified { date } => {
                let mut r = "modified on ".to_owned();
                r.append(date.as_str());
                r
            },
        }
    }
}

/// The kind of content source: a syndication feed, or a sitemap tree.
#[derive(Clone, Copy, PartialEq, Eq, Structural)]
pub enum SourceType {
    Feed,
    Sitemap,
}

/// The kind a stored kind token denotes: the sitemap token names the
/// sitemap kind, any other token the feed kind.
pub open spec fn source_kind_of(s: Seq<char>) -> SourceType {
    if s == "sitemap"@ {
        SourceType::Sitemap
    } else {
        SourceType::Feed
    }
}

impl SourceType {
    /// Reads a stored kind token.
    pub fn of_kind(s: &str) -> (r: SourceType)
        ensures
            r == source_kind_of(s@),
    {
        if crate::textscan::str_eq(s, "sitemap") {
            SourceType::Sitemap
        } else {
            SourceType::Feed
        }
    }

    /// The token this kind is stored as.
    pub fn kind_token(&self) -> (r: String)
        ensures
            r@ == match *self {
                SourceType::Feed => "feed"@,
                SourceType::Sitemap => "sitemap"@,
            },
    {
        match self {
            SourceType::Feed => "feed".to_owned(),
            SourceType::Sitemap => "sitemap".to_owned(),
        }
    }

    /// The kind in words, as the driver displays it.
    pub fn label(&self) -> (r: String)
        ensures
            r@ == match *self {
                SourceType::Feed => "RSS/Atom/JSON Feed"@,
                SourceType::Sitemap => "Sitemap XML"@,
            },
    {
        match self {
            SourceType::Feed => "RSS/Atom/JSON Feed".to_owned(),
            SourceType::Sitemap => "Sitemap XML".to_owned(),
        }
    }
}

/// A configured source: its persistent identity, endpoint, credential and
/// notification targets, and whether its first synchronization pass has been
/// completed.
#[derive(Clone, Debug)]
pub struct Source {
    pub id: i64,
    pub source_type: String,
    pub source_url: String,
    pub api_key: String,
    pub host: String,
    pub searchengine: String,
    pub first_run_completed: bool,
}

} // verus!

//! The change detector: an in-memory image of a source's persisted
//! `url -> modification marker` records, and the classification of freshly
//! fetched entries against it.
//!
//! Markers are opaque strings, compared only for equality. The detector
//! never touches the store itself: the driver loads the records into a
//! [`SourceState`], classifies, and writes back what
//! [`SourceState::insert`] decided after a confirmed, successful
//! submission.

use vstd::prelude::*;

use crate::entry::SubmitEntry;
use crate::entry::SubmitEntryView;
use crate::entry::SubmitReason;
use crate::entry::SubmitReasonView;
use crate::entry::UrlEntry;
use crate::entry::UrlEntryView;

verus! {

/// The mathematical value of a source's persisted state: each recorded URL
/// mapped to its last known marker (which may itself be absent).
pub type MarkerMap = Map<Seq<char>, Option<Seq<char>>>;

/// One persisted record: a URL and its last known modification marker.
pub struct UrlRecord {
    pub url: String,
    pub marker: Option<String>,
}

/// Mathematical value of a [`UrlRecord`].
pub ghost struct UrlRecordView {
    pub url: Seq<char>,
    pub marker: Option<Seq<char>>,
}

impl View for UrlRecord {
    type V = UrlRecordView;

    open spec fn view(&self) -> UrlRecordView {
        UrlRecordView { url: self.url@, marker: self.marker.deep_view() }
    }
}

impl DeepView for UrlRecord {
    type V = UrlRecordView;

    open spec fn deep_view(&self) -> UrlRecordView {
        self.view()
    }
}

/// The map a sequence of records denotes; a later record for the same URL
/// wins.
pub open spec fn map_of(rs: Seq<UrlRecordView>) -> MarkerMap
    decreases rs.len(),
{
    if rs.len() == 0 {
        Map::empty()
    } else {
        map_of(rs.drop_last()).insert(rs.last().url, rs.last().marker)
    }
}

/// A URL is in the map exactly when some record carries it.
proof fn lemma_map_of_contains(rs: Seq<UrlRecordView>, u: Seq<char>)
    ensures
        map_of(rs).contains_key(u) <==> exists|k: int| 0 <= k < rs.len() && rs[k].url == u,
    decreases rs.len(),
{
    if rs.len() > 0 {
        lemma_map_of_contains(rs.drop_last(), u);
        if map_of(rs).contains_key(u) {
            if rs.last().url == u {
                assert(rs[rs.len() - 1].url == u);
            } else {
                let k = choose|k: int| 0 <= k < rs.drop_last().len() && rs.drop_last()[k].url
                    == u;
                assert(rs[k].url == u);
            }
        }
        if exists|k: int| 0 <= k < rs.len() && rs[k].url == u {
            let k = choose|k: int| 0 <= k < rs.len() && rs[k].url == u;
            if k < rs.len() - 1 {
                assert(rs.drop_last()[k].url == u);
            }
        }
    }
}

/// With distinct URLs, the record carrying a URL gives the map's value at
/// it.
proof fn lemma_map_of_value(rs: Seq<UrlRecordView>, k: int)
    requires
        0 <= k < rs.len(),
        forall|i: int, j: int| 0 <= i < j < rs.len() ==> rs[i].url != rs[j].url,
    ensures
        map_of(rs).contains_key(rs[k].url),
        map_of(rs)[rs[k].url] == rs[k].marker,
    decreases rs.len(),
{
    lemma_map_of_contains(rs, rs[k].url);
    if k == rs.len() - 1 {
    } else {
        assert(rs.last().url != rs[k].url);
        assert(rs.drop_last()[k] == rs[k]);
        lemma_map_of_value(rs.drop_last(), k);
    }
}

/// Updating the record that carries a URL updates the map at that URL.
proof fn lemma_map_of_update(rs: Seq<UrlRecordView>, k: int, r: UrlRecordView)
    requires
        0 <= k < rs.len(),
        forall|i: int, j: int| 0 <= i < j < rs.len() ==> rs[i].url != rs[j].url,
        r.url == rs[k].url,
    ensures
        map_of(rs.update(k, r)) =~= map_of(rs).insert(r.url, r.marker),
    decreases rs.len(),
{
    let rs2 = rs.update(k, r);
    if k == rs.len() - 1 {
        assert(rs2.drop_last() =~= rs.drop_last());
        assert(rs2.last() == r);
        lemma_map_of_contains(rs.drop_last(), r.url);
        assert(forall|i: int| 0 <= i < rs.len() - 1 ==> rs[i].url != r.url);
        assert(map_of(rs2) =~= map_of(rs.drop_last()).insert(r.url, r.marker));
        assert(map_of(rs).insert(r.url, r.marker) =~= map_of(rs.drop_last()).insert(
            rs.last().url,
            rs.last().marker,
        ).insert(r.url, r.marker));
    } else {
        assert(rs2.drop_last() =~= rs.drop_last().update(k, r));
        assert(rs2.last() == rs.last());
        assert(rs.drop_last()[k] == rs[k]);
        lemma_map_of_update(rs.drop_last(), k, r);
        assert(map_of(rs2) =~= map_of(rs.drop_last()).insert(r.url, r.marker).insert(
            rs.last().url,
            rs.last().marker,
        ));
        assert(rs.last().url != r.url);
        assert(map_of(rs.drop_last()).insert(r.url, r.marker).insert(
            rs.last().url,
            rs.last().marker,
        ) =~= map_of(rs.drop_last()).insert(rs.last().url, rs.last().marker).insert(
            r.url,
            r.marker,
        ));
    }
}

/// A source's persisted state, held as records with pairwise-distinct URLs.
pub struct SourceState {
    records: Vec<UrlRecord>,
}

impl View for SourceState {
    type V = MarkerMap;

    closed spec fn view(&self) -> MarkerMap {
        map_of(self.records.deep_view())
    }
}

impl SourceState {
    /// At most one record per URL.
    pub closed spec fn wf(&self) -> bool {
        forall|i: int, j: int|
            0 <= i < j < self.records.deep_view().len() ==> self.records.deep_view()[i].url
                != self.records.deep_view()[j].url
    }

    /// An empty state: nothing recorded yet.
    pub fn new() -> (s: SourceState)
        ensures
            s.wf(),
            s@ =~= Map::empty(),
    {
        SourceState { records: Vec::new() }
    }

    /// Records a URL's marker: a fresh record, or an update of the URL's
    /// existing one.
    pub fn insert(&mut self, url: String, marker: Option<String>)
        requires
            old(self).wf(),
        ensures
            final(self).wf(),
            final(self)@ == old(self)@.insert(url@, marker.deep_view()),
    {
        let ghost rs = self.records.deep_view();
        let ghost mv = marker.deep_view();
        let n = self.records.len();
        let mut k: usize = 0;
        while k < n
            invariant
                self.records.deep_view() == rs,
                old(self)@ == map_of(rs),
                mv == marker.deep_view(),
                n == rs.len(),
                k <= n,
                forall|m: int| 0 <= m < k ==> rs[m].url != url@,
                forall|i: int, j: int| 0 <= i < j < rs.len() ==> rs[i].url != rs[j].url,
            decreases n - k,
        {
            if self.records[k].url == url {
                let r = &mut self.records[k];
                r.marker = marker;
                proof {
                    let rs2 = self.records.deep_view();
                    assert(rs2 =~= rs.update(
                        k as int,
                        UrlRecordView { url: url@, marker: mv },
                    ));
                    lemma_map_of_update(
                        rs,
                        k as int,
                        UrlRecordView { url: url@, marker: mv },
                    );
                    assert forall|i: int, j: int| 0 <= i < j < rs2.len() implies rs2[i].url
                        != rs2[j].url by {
                        assert(rs[i].url == rs2[i].url || i == k);
                        assert(rs[j].url == rs2[j].url || j == k);
                    }
                }
                return ;
            }
            k += 1;
        }
        self.records.push(UrlRecord { url, marker });
        proof {
            let rs2 = self.records.deep_view();
            assert(rs2 =~= rs.push(rs2.last()));
            assert(rs2.drop_last() =~= rs);
            assert(map_of(rs2) =~= map_of(rs).insert(rs2.last().url, rs2.last().marker));
            assert forall|i: int, j: int| 0 <= i < j < rs2.len() implies rs2[i].url
                != rs2[j].url by {
                if j == rs.len() {
                    assert(rs2[i].url == rs[i].url);
                }
            }
        }
    }

    /// The recorded marker of a URL: `None` when the URL was never
    /// recorded, `Some(marker)` when it was — the marker itself may be
    /// absent.
    pub fn lookup(&self, url: &String) -> (r: Option<Option<String>>)
        requires
            self.wf(),
        ensures
            match r {
                Some(m) => self@.contains_key(url@) && m.deep_view() == self@[url@],
                None => !self@.contains_key(url@),
            },
    {
        let ghost rs = self.records.deep_view();
        let n = self.records.len();
        let mut k: usize = 0;
        while k < n
            invariant
                n == self.records.deep_view().len(),
                rs == self.records.deep_view(),
                self.wf(),
                k <= n,
                forall|m: int| 0 <= m < k ==> self.records.deep_view()[m].url != url@,
            decreases n - k,
        {
            if self.records[k].url == *url {
                proof {
                    lemma_map_of_value(rs, k as int);
                }
                let m = match &self.records[k].marker {
                    Some(d) => Some(d.clone()),
                    None => None,
                };
                return Some(m);
            }
            k += 1;
        }
        proof {
            lemma_map_of_contains(rs, url@);
        }
        None
    }
}


/// Clones an optional marker.
fn clone_marker(o: &Option<String>) -> (r: Option<String>)
    ensures
        r.deep_view() == o.deep_view(),
{
    match o {
        Some(d) => Some(d.clone()),
        None => None,
    }
}

/// How one fetched entry is classified against persisted state: a fresh
/// submission entry, or nothing when it is unchanged. An entry is `New`
/// when its URL was never recorded; `Modified` when it carries a fresh
/// marker and the recorded marker is absent or differs; dropped otherwise.
pub open spec fn classify_entry(e: UrlEntryView, m: MarkerMap) -> Option<SubmitEntryView> {
    if !m.contains_key(e.url) {
        Some(SubmitEntryView { url: e.url, reason: SubmitReasonView::New })
    } else {
        match e.date {
            Some(d) => if m[e.url] != Some(d) {
                Some(
                    SubmitEntryView {
                        url: e.url,
                        reason: SubmitReasonView::Modified { date: d },
                    },
                )
            } else {
                None
            },
            None => None,
        }
    }
}

/// The submission set: each entry's classification, in fetch order,
/// unchanged entries dropped.
pub open spec fn classify_seq(es: Seq<UrlEntryView>, m: MarkerMap) -> Seq<SubmitEntryView>
    decreases es.len(),
{
    if es.len() == 0 {
        Seq::empty()
    } else {
        let rest = classify_seq(es.drop_first(), m);
        match classify_entry(es[0], m) {
            Some(s) => seq![s] + rest,
            None => rest,
        }
    }
}

/// Classifies freshly fetched entries against a source's persisted state.
/// The result is the submission set of a subsequent (non-first) run.
pub fn classify_entries(entries: &Vec<UrlEntry>, state: &SourceState) -> (r: Vec<SubmitEntry>)
    requires
        state.wf(),
    ensures
        r.deep_view() == classify_seq(entries.deep_view(), state@),
{
    let ghost es = entries.deep_view();
    let ghost m = state@;
    let n = entries.len();
    let mut r: Vec<SubmitEntry> = Vec::new();
    let mut i: usize = 0;
    proof {
        assert(es.skip(0) =~= es);
        assert(r.deep_view() + classify_seq(es, m) =~= classify_seq(es, m));
    }
    while i < n
        invariant
            state.wf(),
            m == state@,
            es == entries.deep_view(),
            n == es.len(),
            i <= n,
            classify_seq(es, m) == r.deep_view() + classify_seq(es.skip(i as int), m),
        decreases n - i,
    {
        let ghost pre = r.deep_view();
        let ghost suffix = es.skip(i as int);
        proof {
            assert(suffix[0] == es[i as int]);
            assert(suffix.drop_first() =~= es.skip(i + 1));
        }
        let e = &entries[i];
        match state.lookup(&e.url) {
            None => {
                let ghost sv = SubmitEntryView { url: es[i as int].url, reason: SubmitReasonView::New };
                r.push(SubmitEntry { url: e.url.clone(), reason: SubmitReason::New });
                proof {
                    assert(classify_entry(es[i as int], m) == Some(sv));
                    assert(r.deep_view() =~= pre.push(sv));
                    assert(pre + (seq![sv] + classify_seq(es.skip(i + 1), m)) =~= pre.push(sv)
                        + classify_seq(es.skip(i + 1), m));
                }
            },
            Some(stored) => {
                match &e.date {
                    None => {
                        proof {
                            assert(classify_entry(es[i as int], m) is None);
                        }
                    },
                    Some(d) => {
                        let differs = match &stored {
                            None => true,
                            Some(old_m) => *old_m != *d,
                        };
                        proof {
                            assert(differs == (m[es[i as int].url] != Some(d@)));
                        }
                        if differs {
                            let ghost sv = SubmitEntryView {
                                url: es[i as int].url,
                                reason: SubmitReasonView::Modified { date: d@ },
                            };
                            r.push(
                                SubmitEntry {
                                    url: e.url.clone(),
                                    reason: SubmitReason::Modified { date: d.clone() },
                                },
                            );
                            proof {
                                assert(classify_entry(es[i as int], m) == Some(sv));
                                assert(r.deep_view() =~= pre.push(sv));
                                assert(pre + (seq![sv] + classify_seq(es.skip(i + 1), m))
                                    =~= pre.push(sv) + classify_seq(es.skip(i + 1), m));
                            }
                        } else {
                            proof {
                                assert(classify_entry(es[i as int], m) is None);
                            }
                        }
                    },
                }
            },
        }
        i += 1;
    }
    proof {
        assert(es.skip(n as int) =~= Seq::<UrlEntryView>::empty());
        assert(r.deep_view() + Seq::<SubmitEntryView>::empty() =~= r.deep_view());
    }
    r
}

/// The first-run submission set: every fetched entry, as `New`, in order.
/// Submitting it still needs the driver's explicit acceptance.
pub open spec fn first_run_seq(es: Seq<UrlEntryView>) -> Seq<SubmitEntryView> {
    es.map_values(|e: UrlEntryView| SubmitEntryView { url: e.url, reason: SubmitReasonView::New })
}

/// Builds the first-run submission set.
pub fn first_run_entries(entries: &Vec<UrlEntry>) -> (r: Vec<SubmitEntry>)
    ensures
        r.deep_view() == first_run_seq(entries.deep_view()),
{
    let ghost es = entries.deep_view();
    let n = entries.len();
    let mut r: Vec<SubmitEntry> = Vec::new();
    let mut i: usize = 0;
    while i < n
        invariant
            es == entries.deep_view(),
            n == es.len(),
            i <= n,
            r.deep_view().len() == i,
            forall|k: int|
                0 <= k < i ==> r.deep_view()[k] == (SubmitEntryView {
                    url: es[k].url,
                    reason: SubmitReasonView::New,
                }),
        decreases n - i,
    {
        let ghost pre = r.deep_view();
        r.push(SubmitEntry { url: entries[i].url.clone(), reason: SubmitReason::New });
        proof {
            assert(r.deep_view() =~= pre.push(
                SubmitEntryView { url: es[i as int].url, reason: SubmitReasonView::New },
            ));
        }
        i += 1;
    }
    proof {
        assert(r.deep_view() =~= first_run_seq(es));
    }
    r
}

/// The state after a first run: every fetched entry recorded
/// unconditionally with its own marker, in fetch order.
pub open spec fn record_all_spec(m: MarkerMap, es: Seq<UrlEntryView>) -> MarkerMap
    decreases es.len(),
{
    if es.len() == 0 {
        m
    } else {
        record_all_spec(m.insert(es[0].url, es[0].date), es.drop_first())
    }
}

/// Records every fetched entry, as the first run does.
pub fn record_all(state: &mut SourceState, entries: &Vec<UrlEntry>)
    requires
        old(state).wf(),
    ensures
        final(state).wf(),
        final(state)@ == record_all_spec(old(state)@, entries.deep_view()),
{
    let ghost es = entries.deep_view();
    let ghost m0 = old(state)@;
    let n = entries.len();
    let mut i: usize = 0;
    proof {
        assert(es.skip(0) =~= es);
    }
    while i < n
        invariant
            state.wf(),
            es == entries.deep_view(),
            n == es.len(),
            i <= n,
            record_all_spec(m0, es) == record_all_spec(state@, es.skip(i as int)),
        decreases n - i,
    {
        let ghost suffix = es.skip(i as int);
        proof {
            assert(suffix[0] == es[i as int]);
            assert(suffix.drop_first() =~= es.skip(i + 1));
        }
        let e = &entries[i];
        let marker = clone_marker(&e.date);
        state.insert(e.url.clone(), marker);
        i += 1;
    }
    proof {
        assert(es.skip(n as int) =~= Seq::<UrlEntryView>::empty());
    }
}

/// The first fetched marker carried by a URL, scanning in fetch order;
/// `None` when the URL was not fetched or carried no marker.
pub open spec fn first_date_of(fs: Seq<UrlEntryView>, url: Seq<char>) -> Option<Seq<char>>
    decreases fs.len(),
{
    if fs.len() == 0 {
        None
    } else if fs[0].url == url {
        fs[0].date
    } else {
        first_date_of(fs.drop_first(), url)
    }
}

/// The marker persisted for a submitted entry: a `New` entry records its
/// own fetched marker, a `Modified` entry records the fresh marker it
/// carries.
pub open spec fn resolved_marker(s: SubmitEntryView, fetched: Seq<UrlEntryView>) -> Option<
    Seq<char>,
> {
    match s.reason {
        SubmitReasonView::New => first_date_of(fetched, s.url),
        SubmitReasonView::Modified { date } => Some(date),
    }
}

/// The state after a confirmed successful submission: each submitted
/// entry's URL recorded with its resolved marker, in submission order.
pub open spec fn record_submitted_spec(
    m: MarkerMap,
    ss: Seq<SubmitEntryView>,
    fetched: Seq<UrlEntryView>,
) -> MarkerMap
    decreases ss.len(),
{
    if ss.len() == 0 {
        m
    } else {
        record_submitted_spec(
            m.insert(ss[0].url, resolved_marker(ss[0], fetched)),
            ss.drop_first(),
            fetched,
        )
    }
}

/// The first fetched marker of a URL, as [`first_date_of`] defines it.
fn lookup_first_date(fetched: &Vec<UrlEntry>, url: &String) -> (r: Option<String>)
    ensures
        r.deep_view() == first_date_of(fetched.deep_view(), url@),
{
    let ghost fs = fetched.deep_view();
    let n = fetched.len();
    let mut i: usize = 0;
    proof {
        assert(fs.skip(0) =~= fs);
    }
    while i < n
        invariant
            fs == fetched.deep_view(),
            n == fs.len(),
            i <= n,
            first_date_of(fs, url@) == first_date_of(fs.skip(i as int), url@),
        decreases n - i,
    {
        let ghost suffix = fs.skip(i as int);
        proof {
            assert(suffix[0] == fs[i as int]);
            assert(suffix.drop_first() =~= fs.skip(i + 1));
        }
        if fetched[i].url == *url {
            return clone_marker(&fetched[i].date);
        }
        i += 1;
    }
    proof {
        assert(fs.skip(n as int) =~= Seq::<UrlEntryView>::empty());
    }
    None
}

/// Records what a successful submission decided, marker resolution
/// included.
pub fn record_submitted(
    state: &mut SourceState,
    submitted: &Vec<SubmitEntry>,
    fetched: &Vec<UrlEntry>,
)
    requires
        old(state).wf(),
    ensures
        final(state).wf(),
        final(state)@ == record_submitted_spec(
            old(state)@,
            submitted.deep_view(),
            fetched.deep_view(),
        ),
{
    let ghost ss = submitted.deep_view();
    let ghost fs = fetched.deep_view();
    let ghost m0 = old(state)@;
    let n = submitted.len();
    let mut i: usize = 0;
    proof {
        assert(ss.skip(0) =~= ss);
    }
    while i < n
        invariant
            state.wf(),
            ss == submitted.deep_view(),
            fs == fetched.deep_view(),
            n == ss.len(),
            i <= n,
            record_submitted_spec(m0, ss, fs) == record_submitted_spec(
                state@,
                ss.skip(i as int),
                fs,
            ),
        decreases n - i,
    {
        let ghost suffix = ss.skip(i as int);
        proof {
            assert(suffix[0] == ss[i as int]);
            assert(suffix.drop_first() =~= ss.skip(i + 1));
        }
        let s = &submitted[i];
        let marker = match &s.reason {
            SubmitReason::New => lookup_first_date(fetched, &s.url),
            SubmitReason::Modified { date } => Some(date.clone()),
        };
        proof {
            assert(marker.deep_view() == resolved_marker(ss[i as int], fs));
        }
        state.insert(s.url.clone(), marker);
        i += 1;
    }
    proof {
        assert(ss.skip(n as int) =~= Seq::<SubmitEntryView>::empty());
    }
}


/// The submission set is a subset of the freshly fetched entries and
/// carries no duplicate URL: every submitted URL is a fetched URL, and no
/// URL is submitted twice.
pub proof fn lemma_submission_set_shape(es: Seq<UrlEntryView>, m: MarkerMap)
    requires
        crate::traverse::distinct_urls(crate::traverse::urls_of(es)),
    ensures
        forall|k: int|
            0 <= k < classify_seq(es, m).len() ==> crate::traverse::urls_of(es).contains(
                (#[trigger] classify_seq(es, m)[k]).url,
            ),
        forall|i: int, j: int|
            0 <= i < j < classify_seq(es, m).len() ==> classify_seq(es, m)[i].url
                != classify_seq(es, m)[j].url,
    decreases es.len(),
{
    let subs = classify_seq(es, m);
    assert forall|k: int| 0 <= k < subs.len() implies crate::traverse::urls_of(es).contains(
        (#[trigger] subs[k]).url,
    ) by {
        lemma_classify_sub_urls(es, m, subs[k].url);
        let j = choose|j: int| 0 <= j < es.len() && es[j].url == subs[k].url;
        assert(crate::traverse::urls_of(es)[j] == subs[k].url);
    }
    if es.len() > 0 {
        let e0 = es[0];
        let rest = es.drop_first();
        assert forall|i: int, j: int|
            0 <= i < j < crate::traverse::urls_of(rest).len() implies crate::traverse::urls_of(
            rest,
        )[i] != crate::traverse::urls_of(rest)[j] by {
            assert(rest[i] == es[i + 1]);
            assert(rest[j] == es[j + 1]);
            assert(crate::traverse::urls_of(es)[i + 1] != crate::traverse::urls_of(es)[j + 1]);
        }
        lemma_submission_set_shape(rest, m);
        let rsubs = classify_seq(rest, m);
        match classify_entry(e0, m) {
            None => {
                assert(subs == rsubs);
            },
            Some(s0) => {
                assert(subs == seq![s0] + rsubs);
                assert forall|j: int| 0 <= j < rsubs.len() implies (#[trigger] rsubs[j]).url
                    != s0.url by {
                    lemma_classify_sub_urls(rest, m, rsubs[j].url);
                    let t = choose|t: int| 0 <= t < rest.len() && rest[t].url == rsubs[j].url;
                    assert(rest[t] == es[t + 1]);
                    assert(crate::traverse::urls_of(es)[0] != crate::traverse::urls_of(es)[t
                        + 1]);
                }
                assert forall|i: int, j: int| 0 <= i < j < subs.len() implies subs[i].url
                    != subs[j].url by {
                    if i == 0 {
                        assert(subs[j] == rsubs[j - 1]);
                    } else {
                        assert(subs[i] == rsubs[i - 1]);
                        assert(subs[j] == rsubs[j - 1]);
                    }
                }
            },
        }
    }
}

/// The entry's URL was never recorded.
pub open spec fn is_new(e: UrlEntryView, m: MarkerMap) -> bool {
    !m.contains_key(e.url)
}

/// The entry was recorded, carries a fresh marker, and the recorded marker
/// is absent or differs.
pub open spec fn is_modified(e: UrlEntryView, m: MarkerMap) -> bool {
    m.contains_key(e.url) && e.date is Some && m[e.url] != e.date
}

/// The entry was recorded and carries no fresh marker, or its fresh marker
/// equals the recorded one.
pub open spec fn is_unchanged(e: UrlEntryView, m: MarkerMap) -> bool {
    m.contains_key(e.url) && (e.date is None || m[e.url] == e.date)
}

/// Classification is total and exclusive: for any entry and persisted
/// state, exactly one of new, modified and unchanged holds, and
/// [`classify_entry`] decides accordingly — a submission entry for the
/// first two, silence for the third.
pub proof fn lemma_classification_total(e: UrlEntryView, m: MarkerMap)
    ensures
        is_new(e, m) || is_modified(e, m) || is_unchanged(e, m),
        !(is_new(e, m) && is_modified(e, m)),
        !(is_new(e, m) && is_unchanged(e, m)),
        !(is_modified(e, m) && is_unchanged(e, m)),
        is_new(e, m) <==> classify_entry(e, m) == Some(
            SubmitEntryView { url: e.url, reason: SubmitReasonView::New },
        ),
        is_modified(e, m) <==> (classify_entry(e, m) matches Some(s)
            && s.reason matches SubmitReasonView::Modified { date } && e.date == Some(date)),
        is_unchanged(e, m) <==> classify_entry(e, m) is None,
{
}

/// The entry's URL is recorded, and any fresh marker it carries equals the
/// recorded one: exactly the condition under which the detector stays
/// silent.
pub open spec fn settles(e: UrlEntryView, m: MarkerMap) -> bool {
    m.contains_key(e.url) && (e.date is Some ==> m[e.url] == e.date)
}

/// Entries the state settles are never submitted.
proof fn lemma_classify_settled(es: Seq<UrlEntryView>, m: MarkerMap)
    requires
        forall|k: int| 0 <= k < es.len() ==> settles(#[trigger] es[k], m),
    ensures
        classify_seq(es, m) == Seq::<SubmitEntryView>::empty(),
    decreases es.len(),
{
    if es.len() > 0 {
        assert(settles(es[0], m));
        assert(classify_entry(es[0], m) is None);
        assert forall|k: int| 0 <= k < es.drop_first().len() implies settles(
            #[trigger] es.drop_first()[k],
            m,
        ) by {
            assert(es.drop_first()[k] == es[k + 1]);
        }
        lemma_classify_settled(es.drop_first(), m);
    }
}

/// Recording entries that all carry other URLs leaves a URL's mapping
/// alone.
proof fn lemma_record_all_untouched(m: MarkerMap, es: Seq<UrlEntryView>, u: Seq<char>)
    requires
        forall|k: int| 0 <= k < es.len() ==> (#[trigger] es[k]).url != u,
    ensures
        record_all_spec(m, es).contains_key(u) == m.contains_key(u),
        m.contains_key(u) ==> record_all_spec(m, es)[u] == m[u],
    decreases es.len(),
{
    if es.len() > 0 {
        assert forall|k: int| 0 <= k < es.drop_first().len() implies (#[trigger] es.drop_first()[k]).url
            != u by {
            assert(es.drop_first()[k] == es[k + 1]);
        }
        lemma_record_all_untouched(m.insert(es[0].url, es[0].date), es.drop_first(), u);
    }
}

/// With distinct URLs, a first run records each entry's own marker.
proof fn lemma_record_all_value(m: MarkerMap, es: Seq<UrlEntryView>, k: int)
    requires
        0 <= k < es.len(),
        crate::traverse::distinct_urls(crate::traverse::urls_of(es)),
    ensures
        record_all_spec(m, es).contains_key(es[k].url),
        record_all_spec(m, es)[es[k].url] == es[k].date,
    decreases es.len(),
{
    let rest = es.drop_first();
    assert forall|i: int, j: int|
        0 <= i < j < crate::traverse::urls_of(rest).len() implies crate::traverse::urls_of(
        rest,
    )[i] != crate::traverse::urls_of(rest)[j] by {
        assert(rest[i] == es[i + 1]);
        assert(rest[j] == es[j + 1]);
        assert(crate::traverse::urls_of(es)[i + 1] != crate::traverse::urls_of(es)[j + 1]);
    }
    if k == 0 {
        assert forall|i: int| 0 <= i < rest.len() implies (#[trigger] rest[i]).url
            != es[0].url by {
            assert(rest[i] == es[i + 1]);
            assert(crate::traverse::urls_of(es)[0] != crate::traverse::urls_of(es)[i + 1]);
        }
        lemma_record_all_untouched(m.insert(es[0].url, es[0].date), rest, es[0].url);
    } else {
        assert(rest[k - 1] == es[k]);
        lemma_record_all_value(m.insert(es[0].url, es[0].date), rest, k - 1);
    }
}

/// Idempotence across a first run: after the first run has recorded every
/// fetched entry, re-running the detector on the identical fetched entries
/// yields an empty submission set. (An input with the same URL twice under
/// different markers is excluded: its later marker overwrites the earlier
/// one, so the earlier entry would resurface as modified.)
pub proof fn lemma_first_run_idempotent(es: Seq<UrlEntryView>, m0: MarkerMap)
    requires
        crate::traverse::distinct_urls(crate::traverse::urls_of(es)),
    ensures
        classify_seq(es, record_all_spec(m0, es)) == Seq::<SubmitEntryView>::empty(),
{
    let m1 = record_all_spec(m0, es);
    assert forall|k: int| 0 <= k < es.len() implies settles(#[trigger] es[k], m1) by {
        lemma_record_all_value(m0, es, k);
    }
    lemma_classify_settled(es, m1);
}

/// Recording submitted entries that all carry other URLs leaves a URL's
/// mapping alone.
proof fn lemma_record_submitted_untouched(
    m: MarkerMap,
    ss: Seq<SubmitEntryView>,
    fetched: Seq<UrlEntryView>,
    u: Seq<char>,
)
    requires
        forall|k: int| 0 <= k < ss.len() ==> (#[trigger] ss[k]).url != u,
    ensures
        record_submitted_spec(m, ss, fetched).contains_key(u) == m.contains_key(u),
        m.contains_key(u) ==> record_submitted_spec(m, ss, fetched)[u] == m[u],
    decreases ss.len(),
{
    if ss.len() > 0 {
        assert forall|k: int| 0 <= k < ss.drop_first().len() implies (#[trigger] ss.drop_first()[k]).url
            != u by {
            assert(ss.drop_first()[k] == ss[k + 1]);
        }
        lemma_record_submitted_untouched(
            m.insert(ss[0].url, resolved_marker(ss[0], fetched)),
            ss.drop_first(),
            fetched,
            u,
        );
    }
}

/// Every submitted URL comes from a fetched entry.
proof fn lemma_classify_sub_urls(es: Seq<UrlEntryView>, m: MarkerMap, u: Seq<char>)
    requires
        exists|k: int| 0 <= k < classify_seq(es, m).len() && classify_seq(es, m)[k].url == u,
    ensures
        exists|k: int| 0 <= k < es.len() && es[k].url == u,
    decreases es.len(),
{
    if es.len() > 0 {
        let rest = classify_seq(es.drop_first(), m);
        let k = choose|k: int|
            0 <= k < classify_seq(es, m).len() && classify_seq(es, m)[k].url == u;
        match classify_entry(es[0], m) {
            Some(s) => {
                if k == 0 {
                    assert(es[0].url == u);
                } else {
                    assert(rest[k - 1].url == u);
                    lemma_classify_sub_urls(es.drop_first(), m, u);
                    let j = choose|j: int|
                        0 <= j < es.drop_first().len() && es.drop_first()[j].url == u;
                    assert(es[j + 1].url == u);
                }
            },
            None => {
                lemma_classify_sub_urls(es.drop_first(), m, u);
                let j = choose|j: int|
                    0 <= j < es.drop_first().len() && es.drop_first()[j].url == u;
                assert(es[j + 1].url == u);
            },
        }
    }
}

/// Classification only reads the state at the entry's own URL.
proof fn lemma_classify_insert_irrelevant(
    es: Seq<UrlEntryView>,
    m: MarkerMap,
    u: Seq<char>,
    v: Option<Seq<char>>,
)
    requires
        forall|k: int| 0 <= k < es.len() ==> (#[trigger] es[k]).url != u,
    ensures
        classify_seq(es, m.insert(u, v)) == classify_seq(es, m),
    decreases es.len(),
{
    if es.len() > 0 {
        assert(classify_entry(es[0], m.insert(u, v)) == classify_entry(es[0], m));
        assert forall|k: int| 0 <= k < es.drop_first().len() implies (#[trigger] es.drop_first()[k]).url
            != u by {
            assert(es.drop_first()[k] == es[k + 1]);
        }
        lemma_classify_insert_irrelevant(es.drop_first(), m, u, v);
    }
}

/// With distinct URLs, the first fetched marker of an entry's URL is its
/// own.
proof fn lemma_first_date_self(es: Seq<UrlEntryView>, k: int)
    requires
        0 <= k < es.len(),
        crate::traverse::distinct_urls(crate::traverse::urls_of(es)),
    ensures
        first_date_of(es, es[k].url) == es[k].date,
    decreases es.len(),
{
    if k == 0 {
    } else {
        assert(crate::traverse::urls_of(es)[0] != crate::traverse::urls_of(es)[k]);
        assert(es[0].url != es[k].url);
        let rest = es.drop_first();
        assert forall|i: int, j: int|
            0 <= i < j < crate::traverse::urls_of(rest).len() implies crate::traverse::urls_of(
            rest,
        )[i] != crate::traverse::urls_of(rest)[j] by {
            assert(rest[i] == es[i + 1]);
            assert(rest[j] == es[j + 1]);
            assert(crate::traverse::urls_of(es)[i + 1] != crate::traverse::urls_of(es)[j + 1]);
        }
        assert(rest[k - 1] == es[k]);
        lemma_first_date_self(rest, k - 1);
    }
}

/// After recording what the detector classified, the state settles every
/// fetched entry.
proof fn lemma_rerun_settles(es: Seq<UrlEntryView>, m0: MarkerMap, fetched: Seq<UrlEntryView>)
    requires
        crate::traverse::distinct_urls(crate::traverse::urls_of(es)),
        forall|k: int|
            0 <= k < es.len() ==> first_date_of(fetched, (#[trigger] es[k]).url) == es[k].date,
    ensures
        forall|k: int|
            0 <= k < es.len() ==> settles(
                #[trigger] es[k],
                record_submitted_spec(m0, classify_seq(es, m0), fetched),
            ),
    decreases es.len(),
{
    if es.len() == 0 {
        return ;
    }
    let e0 = es[0];
    let rest = es.drop_first();
    let subs = classify_seq(es, m0);
    assert forall|i: int, j: int|
        0 <= i < j < crate::traverse::urls_of(rest).len() implies crate::traverse::urls_of(
        rest,
    )[i] != crate::traverse::urls_of(rest)[j] by {
        assert(rest[i] == es[i + 1]);
        assert(rest[j] == es[j + 1]);
        assert(crate::traverse::urls_of(es)[i + 1] != crate::traverse::urls_of(es)[j + 1]);
    }
    assert forall|i: int| 0 <= i < rest.len() implies (#[trigger] rest[i]).url != e0.url by {
        assert(rest[i] == es[i + 1]);
        assert(crate::traverse::urls_of(es)[0] != crate::traverse::urls_of(es)[i + 1]);
    }
    assert forall|i: int| 0 <= i < rest.len() implies first_date_of(
        fetched,
        (#[trigger] rest[i]).url,
    ) == rest[i].date by {
        assert(rest[i] == es[i + 1]);
    }
    // No submitted entry of the rest carries the head's URL.
    assert forall|i: int| 0 <= i < classify_seq(rest, m0).len() implies (
    #[trigger] classify_seq(rest, m0)[i]).url != e0.url by {
        if classify_seq(rest, m0)[i].url == e0.url {
            lemma_classify_sub_urls(rest, m0, e0.url);
        }
    }
    match classify_entry(e0, m0) {
        None => {
            assert(subs == classify_seq(rest, m0));
            let m1 = record_submitted_spec(m0, subs, fetched);
            lemma_record_submitted_untouched(m0, subs, fetched, e0.url);
            assert(settles(e0, m0));
            assert(settles(e0, m1));
            lemma_rerun_settles(rest, m0, fetched);
            assert forall|k: int| 0 <= k < es.len() implies settles(#[trigger] es[k], m1) by {
                if k > 0 {
                    assert(es[k] == rest[k - 1]);
                }
            }
        },
        Some(s0) => {
            assert(subs == seq![s0] + classify_seq(rest, m0));
            assert(subs[0] == s0);
            assert(subs.drop_first() =~= classify_seq(rest, m0));
            let mk = resolved_marker(s0, fetched);
            let m0p = m0.insert(e0.url, mk);
            assert(record_submitted_spec(m0, subs, fetched) == record_submitted_spec(
                m0p,
                classify_seq(rest, m0),
                fetched,
            ));
            // The resolved marker is the entry's own fetched marker.
            assert(s0.url == e0.url);
            match s0.reason {
                SubmitReasonView::New => {
                    assert(mk == first_date_of(fetched, e0.url));
                    assert(mk == e0.date);
                },
                SubmitReasonView::Modified { date } => {
                    assert(e0.date == Some(date));
                },
            }
            assert(m0p[e0.url] == e0.date);
            assert(settles(e0, m0p));
            lemma_classify_insert_irrelevant(rest, m0, e0.url, mk);
            assert(classify_seq(rest, m0) == classify_seq(rest, m0p));
            lemma_rerun_settles(rest, m0p, fetched);
            let m1 = record_submitted_spec(m0p, classify_seq(rest, m0p), fetched);
            lemma_record_submitted_untouched(m0p, classify_seq(rest, m0), fetched, e0.url);
            assert(settles(e0, m1));
            assert forall|k: int| 0 <= k < es.len() implies settles(#[trigger] es[k], m1) by {
                if k > 0 {
                    assert(es[k] == rest[k - 1]);
                }
            }
            assert(record_submitted_spec(m0, subs, fetched) == m1);
        },
    }
}

/// Idempotence across a subsequent run: once a run's submission set has
/// been recorded, re-running the detector on the identical fetched entries
/// yields an empty submission set and so no network side effects. (As with
/// the first-run law, an input carrying one URL twice under different
/// markers is excluded.)
pub proof fn lemma_detector_idempotent(es: Seq<UrlEntryView>, m0: MarkerMap)
    requires
        crate::traverse::distinct_urls(crate::traverse::urls_of(es)),
    ensures
        classify_seq(es, record_submitted_spec(m0, classify_seq(es, m0), es)) == Seq::<
            SubmitEntryView,
        >::empty(),
{
    assert forall|k: int| 0 <= k < es.len() implies first_date_of(
        es,
        (#[trigger] es[k]).url,
    ) == es[k].date by {
        lemma_first_date_self(es, k);
    }
    lemma_rerun_settles(es, m0, es);
    lemma_classify_settled(es, record_submitted_spec(m0, classify_seq(es, m0), es));
}


/// The records a successful submission persists, one per submitted entry,
/// in submission order: the entry's URL with its resolved marker. Writing
/// them is [`record_submitted`] in data form, for a driver that persists
/// batch by batch.
pub fn records_for_submission(submitted: &Vec<SubmitEntry>, fetched: &Vec<UrlEntry>) -> (r: Vec<
    UrlRecord,
>)
    ensures
        r.deep_view().len() == submitted.deep_view().len(),
        forall|k: int|
            0 <= k < submitted.deep_view().len() ==> #[trigger] r.deep_view()[k]
                == (UrlRecordView {
                url: submitted.deep_view()[k].url,
                marker: resolved_marker(submitted.deep_view()[k], fetched.deep_view()),
            }),
{
    let ghost ss = submitted.deep_view();
    let ghost fs = fetched.deep_view();
    let n = submitted.len();
    let mut r: Vec<UrlRecord> = Vec::new();
    let mut i: usize = 0;
    while i < n
        invariant
            ss == submitted.deep_view(),
            fs == fetched.deep_view(),
            n == ss.len(),
            i <= n,
            r.deep_view().len() == i,
            forall|k: int|
                0 <= k < i ==> #[trigger] r.deep_view()[k] == (UrlRecordView {
                    url: ss[k].url,
                    marker: resolved_marker(ss[k], fs),
                }),
        decreases n - i,
    {
        let s = &submitted[i];
        let marker = match &s.reason {
            SubmitReason::New => lookup_first_date(fetched, &s.url),
            SubmitReason::Modified { date } => Some(date.clone()),
        };
        let ghost pre = r.deep_view();
        r.push(UrlRecord { url: s.url.clone(), marker });
        proof {
            assert(r.deep_view() =~= pre.push(
                UrlRecordView { url: ss[i as int].url, marker: resolved_marker(ss[i as int], fs) },
            ));
        }
        i += 1;
    }
    r
}

} // verus!

//! The sitemap traversal engine: a step machine that resolves a tree of
//! sitemap indexes into a flat, deduplicated entry list.
//!
//! The driver owns the network: it asks [`Traversal::next_step`] what to do,
//! fetches the named reference, and hands the body to
//! [`Traversal::on_document`]. A fetch failure fails the whole traversal,
//! which the driver expresses by abandoning the machine. The machine
//! enforces the recursion-depth ceiling (an over-deep branch is skipped, not
//! an error), keeps one "seen" set across the entire traversal so that a URL
//! reachable through several branches is kept once in first-discovery order,
//! and terminates: every step strictly decreases [`depth_measure`] in
//! lexicographic order.
//!
//! The whole traversal is also stated as one law over a document map: the
//! total function [`crawl_spec`] is the traversal of the whole reference
//! tree, [`lemma_crawl_collects_leaf_entries`] equates its result with the
//! tree's leaf entries in discovery order folded URL-by-URL, and
//! [`traverse_documents`] runs the machine to exactly that result.

use vstd::prelude::*;

use crate::entry::UrlEntry;
use crate::entry::UrlEntryView;
use crate::sitemap::index_references;
use crate::sitemap::is_index_doc;
use crate::sitemap::is_sitemap_index;
use crate::sitemap::parse_sitemap;
use crate::sitemap::parse_sitemap_index;
use crate::sitemap::sitemap_entries;

verus! {

/// Hard ceiling on sitemap-index recursion depth.
pub const MAX_DEPTH: usize = 10;

/// A reference queued for fetching, with the tree depth it was discovered
/// at.
pub struct Frame {
    pub url: String,
    pub depth: usize,
}

/// Mathematical value of a [`Frame`].
pub ghost struct FrameView {
    pub url: Seq<char>,
    pub depth: nat,
}

impl View for Frame {
    type V = FrameView;

    open spec fn view(&self) -> FrameView {
        FrameView { url: self.url@, depth: self.depth as nat }
    }
}

impl DeepView for Frame {
    type V = FrameView;

    open spec fn deep_view(&self) -> FrameView {
        self.view()
    }
}

/// Mathematical value of a [`Traversal`]: the stack of references still to
/// visit (top last) and the entries collected so far.
pub ghost struct TraversalView {
    pub pending: Seq<FrameView>,
    pub entries: Seq<UrlEntryView>,
}

/// What the driver should do next.
pub enum FetchStep {
    /// Fetch this reference and hand the body to `on_document`.
    Fetch(String),
    /// This branch lay beyond the depth ceiling and was skipped.
    SkipTooDeep(String),
    /// The traversal is complete.
    Done,
}

/// The URLs of a sequence of entries.
pub open spec fn urls_of(es: Seq<UrlEntryView>) -> Seq<Seq<char>> {
    es.map_values(|e: UrlEntryView| e.url)
}

/// No URL occurs twice.
pub open spec fn distinct_urls(us: Seq<Seq<char>>) -> bool {
    forall|i: int, j: int| 0 <= i < j < us.len() ==> us[i] != us[j]
}

/// Entries of `parsed` folded into `es`, keeping each URL once, in
/// first-discovery order.
pub open spec fn dedup_append(es: Seq<UrlEntryView>, parsed: Seq<UrlEntryView>) -> Seq<
    UrlEntryView,
>
    decreases parsed.len(),
{
    if parsed.len() == 0 {
        es
    } else {
        let e = parsed[0];
        let es2 = if urls_of(es).contains(e.url) {
            es
        } else {
            es.push(e)
        };
        dedup_append(es2, parsed.drop_first())
    }
}

/// The frames a sitemap index queues: its references in reverse, one depth
/// deeper, so that the first reference ends on top of the stack.
pub open spec fn child_frames(refs: Seq<Seq<char>>, depth: nat) -> Seq<FrameView> {
    Seq::new(refs.len(), |k: int| FrameView { url: refs[refs.len() - 1 - k], depth })
}

/// How many pending frames sit at depth `d`.
pub open spec fn depth_count(p: Seq<FrameView>, d: int) -> nat
    decreases p.len(),
{
    if p.len() == 0 {
        0
    } else {
        depth_count(p.drop_last(), d) + (if p.last().depth == d {
            1nat
        } else {
            0nat
        })
    }
}

/// The traversal's termination measure: pending frames counted per depth,
/// shallowest first.
pub open spec fn depth_measure(p: Seq<FrameView>) -> Seq<nat> {
    Seq::new((MAX_DEPTH + 2) as nat, |d: int| depth_count(p, d))
}

/// Strict lexicographic order on equal-length sequences of naturals; it is
/// well-founded, so a run whose every step descends in it is finite.
pub open spec fn lex_less(a: Seq<nat>, b: Seq<nat>) -> bool {
    &&& a.len() == b.len()
    &&& exists|i: int|
        0 <= i < a.len() && a[i] < b[i] && (forall|j: int| 0 <= j < i ==> a[j] == b[j])
}

/// Every queued depth lies within one past the ceiling.
pub open spec fn bounded_depths(p: Seq<FrameView>) -> bool {
    forall|k: int| 0 <= k < p.len() ==> (#[trigger] p[k]).depth <= MAX_DEPTH as nat + 1
}

/// The sitemap traversal engine.
pub struct Traversal {
    pending: Vec<Frame>,
    entries: Vec<UrlEntry>,
}

impl View for Traversal {
    type V = TraversalView;

    closed spec fn view(&self) -> TraversalView {
        TraversalView { pending: self.pending.deep_view(), entries: self.entries.deep_view() }
    }
}

impl Traversal {
    /// The machine is well formed: collected URLs are distinct and nothing
    /// is queued deeper than one past the ceiling.
    pub open spec fn wf(&self) -> bool {
        &&& distinct_urls(urls_of(self@.entries))
        &&& bounded_depths(self@.pending)
    }

    /// Starts a traversal at a root reference, which sits at depth zero.
    pub fn new(root: String) -> (t: Traversal)
        ensures
            t.wf(),
            t@.pending =~= seq![FrameView { url: root@, depth: 0 }],
            t@.entries =~= Seq::<UrlEntryView>::empty(),
    {
        let mut pending: Vec<Frame> = Vec::new();
        pending.push(Frame { url: root, depth: 0 });
        let t = Traversal { pending, entries: Vec::new() };
        proof {
            assert(t@.pending =~= seq![FrameView { url: t.pending[0].url@, depth: 0 }]);
        }
        t
    }

    /// The entries collected so far, in first-discovery order.
    pub fn entries(&self) -> (r: &Vec<UrlEntry>)
        ensures
            r.deep_view() == self@.entries,
    {
        &self.entries
    }

    /// Consumes the machine and yields the collected entries.
    pub fn into_entries(self) -> (r: Vec<UrlEntry>)
        ensures
            r.deep_view() == self@.entries,
    {
        self.entries
    }

    /// What to do next. A `Fetch` is only ever issued for a reference at or
    /// below the depth ceiling; an over-deep reference is dropped with
    /// `SkipTooDeep`, which strictly decreases the termination measure.
    pub fn next_step(&mut self) -> (s: FetchStep)
        requires
            old(self).wf(),
        ensures
            final(self).wf(),
            final(self)@.entries == old(self)@.entries,
            old(self)@.pending.len() == 0 ==> (s is Done && final(self)@.pending
                == old(self)@.pending),
            old(self)@.pending.len() > 0 && old(self)@.pending.last().depth > MAX_DEPTH as nat
                ==> {
                &&& s matches FetchStep::SkipTooDeep(u) && u@ == old(self)@.pending.last().url
                &&& final(self)@.pending == old(self)@.pending.drop_last()
                &&& lex_less(depth_measure(final(self)@.pending), depth_measure(
                    old(self)@.pending,
                ))
            },
            old(self)@.pending.len() > 0 && old(self)@.pending.last().depth <= MAX_DEPTH as nat
                ==> {
                &&& s matches FetchStep::Fetch(u) && u@ == old(self)@.pending.last().url
                &&& final(self)@.pending == old(self)@.pending
            },
    {
        let n = self.pending.len();
        if n == 0 {
            proof {
                assert(self@.pending =~= old(self)@.pending);
            }
            FetchStep::Done
        } else if self.pending[n - 1].depth > MAX_DEPTH {
            let f = self.pending.pop().unwrap();
            proof {
                assert(old(self)@.pending.last() == f@);
                assert(self@.pending =~= old(self)@.pending.drop_last());
                lemma_measure_drop_last(old(self)@.pending, f@.depth as int);
            }
            FetchStep::SkipTooDeep(f.url)
        } else {
            let u = self.pending[n - 1].url.clone();
            proof {
                assert(self@.pending =~= old(self)@.pending);
                assert(u@ == old(self)@.pending.last().url);
            }
            FetchStep::Fetch(u)
        }
    }

    /// Folds a fetched document into the traversal. An index queues its
    /// child references one depth deeper, first child on top; a leaf's
    /// entries join the collection, already-seen URLs dropped. Either way
    /// the termination measure strictly decreases.
    pub fn on_document(&mut self, content: &str)
        requires
            old(self).wf(),
            old(self)@.pending.len() > 0,
            old(self)@.pending.last().depth <= MAX_DEPTH as nat,
        ensures
            final(self).wf(),
            lex_less(depth_measure(final(self)@.pending), depth_measure(old(self)@.pending)),
            is_index_doc(content@) ==> {
                &&& final(self)@.entries == old(self)@.entries
                &&& final(self)@.pending == old(self)@.pending.drop_last() + child_frames(
                    index_references(content@),
                    old(self)@.pending.last().depth + 1,
                )
            },
            !is_index_doc(content@) ==> {
                &&& final(self)@.pending == old(self)@.pending.drop_last()
                &&& final(self)@.entries == dedup_append(
                    old(self)@.entries,
                    sitemap_entries(content@),
                )
            },
    {
        let f = match self.pending.pop() {
            Some(f) => f,
            None => {
                return ;
            },
        };
        if f.depth > MAX_DEPTH {
            return ;
        }
        proof {
            assert(f@ == old(self)@.pending.last());
            assert(self@.pending =~= old(self)@.pending.drop_last());
        }
        let ghost base = self@.pending;
        let ghost d_new: nat = f@.depth + 1;
        if is_sitemap_index(content) {
            let mut subs = parse_sitemap_index(content);
            let ghost subs0 = subs.deep_view();
            let ghost n0 = subs0.len();
            proof {
                assert(subs.deep_view() =~= subs0.take(subs0.len() as int));
                assert(base + child_frames(subs0, d_new).take(0) =~= base);
                assert(self@.pending =~= base + child_frames(subs0, d_new).take(0));
            }
            while subs.len() != 0
                invariant
                    n0 == subs0.len(),
                    subs.deep_view() == subs0.take(subs.deep_view().len() as int),
                    subs.deep_view().len() <= n0,
                    self@.pending == base + child_frames(subs0, d_new).take(
                        n0 as int - subs.deep_view().len() as int,
                    ),
                    self@.entries == old(self)@.entries,
                    d_new == old(self)@.pending.last().depth + 1,
                    d_new <= MAX_DEPTH as nat + 1,
                    f@.depth + 1 == d_new,
                    f.depth <= MAX_DEPTH,
                decreases subs.deep_view().len(),
            {
                let ghost pend_pre = self@.pending;
                let ghost pre_subs = subs.deep_view();
                let ghost m = pre_subs.len();
                let u = subs.pop().unwrap();
                proof {
                    assert(u@ == pre_subs[m - 1]);
                    assert(m <= n0);
                    assert forall|i: int| 0 <= i < m implies pre_subs[i] == subs0[i] by {
                        assert(subs0.take(m as int)[i] == subs0[i]);
                    }
                    assert(u@ == subs0[m - 1]);
                    assert forall|i: int|
                        0 <= i < m - 1 implies subs.deep_view()[i] == subs0.take(m - 1)[i] by {
                        assert(subs0.take(m - 1)[i] == subs0[i]);
                        assert(subs.deep_view()[i] == pre_subs[i]);
                    }
                    assert(subs.deep_view() =~= subs0.take(m - 1));
                }
                let depth = f.depth + 1;
                self.pending.push(Frame { url: u, depth });
                proof {
                    let cf = child_frames(subs0, d_new);
                    assert(cf[n0 - m] == FrameView { url: subs0[m - 1], depth: d_new });
                    assert(self@.pending =~= pend_pre.push(cf[n0 - m]));
                    assert forall|k: int|
                        0 <= k < n0 - m + 1 implies #[trigger] cf.take(n0 - m + 1)[k] == cf.take(
                        n0 as int - m,
                    ).push(cf[n0 - m])[k] by {
                        assert(cf.take(n0 - m + 1)[k] == cf[k]);
                        if k < n0 - m {
                            assert(cf.take(n0 as int - m)[k] == cf[k]);
                        }
                    }
                    assert(cf.take(n0 - m + 1) =~= cf.take(n0 as int - m).push(cf[n0 - m]));
                    assert(self@.pending =~= base + cf.take(n0 as int - (m - 1)));
                }
            }
            proof {
                assert(subs.deep_view().len() == 0);
                assert(child_frames(subs0, d_new).take(n0 as int) =~= child_frames(
                    subs0,
                    d_new,
                ));
                assert(self@.pending =~= base + child_frames(subs0, d_new));
                lemma_measure_pop_push(
                    old(self)@.pending,
                    child_frames(subs0, d_new),
                    old(self)@.pending.last().depth as int,
                );
            }
        } else {
            let parsed = parse_sitemap(content);
            let ghost parsed0 = parsed.deep_view();
            let n = parsed.len();
            let mut idx: usize = 0;
            proof {
                assert(self@.entries =~= dedup_append(old(self)@.entries, parsed0.take(0)));
            }
            while idx < n
                invariant
                    n == parsed.deep_view().len(),
                    parsed.deep_view() == parsed0,
                    idx <= n,
                    self@.pending == base,
                    self@.entries == dedup_append(old(self)@.entries, parsed0.take(idx as int)),
                    distinct_urls(urls_of(self@.entries)),
                decreases n - idx,
            {
                let ghost pre = self@.entries;
                let e = duplicate_entry(&parsed, idx);
                let ghost ev = parsed0[idx as int];
                if !entries_contain(&self.entries, &e.url) {
                    self.entries.push(e);
                    proof {
                        assert(self@.entries =~= pre.push(ev));
                        assert(urls_of(pre.push(ev)) =~= urls_of(pre).push(ev.url));
                        assert forall|a: int, b: int|
                            0 <= a < b < urls_of(self@.entries).len() implies urls_of(
                            self@.entries,
                        )[a] != urls_of(self@.entries)[b] by {
                            if b == urls_of(pre).len() {
                                if urls_of(pre)[a] == ev.url {
                                    assert(urls_of(pre).contains(ev.url));
                                }
                            }
                        }
                    }
                }
                proof {
                    lemma_dedup_append_snoc(old(self)@.entries, parsed0.take(idx as int), ev);
                    assert(parsed0.take(idx as int).push(ev) =~= parsed0.take(idx + 1));
                }
                idx += 1;
            }
            proof {
                assert(parsed0.take(n as int) =~= parsed0);
                lemma_measure_pop_push(
                    old(self)@.pending,
                    Seq::<FrameView>::empty(),
                    old(self)@.pending.last().depth as int,
                );
                assert(base + Seq::<FrameView>::empty() =~= base);
            }
        }
    }
}

/// A copy of `es[idx]`.
fn duplicate_entry(es: &Vec<UrlEntry>, idx: usize) -> (r: UrlEntry)
    requires
        idx < es@.len(),
    ensures
        r@ == es.deep_view()[idx as int],
{
    es[idx].duplicate()
}

/// Whether some collected entry already carries this URL.
fn entries_contain(es: &Vec<UrlEntry>, url: &String) -> (r: bool)
    ensures
        r == urls_of(es.deep_view()).contains(url@),
{
    let n = es.len();
    let mut k: usize = 0;
    while k < n
        invariant
            n == es@.len(),
            k <= n,
            forall|m: int| 0 <= m < k ==> es.deep_view()[m].url != url@,
        decreases n - k,
    {
        if es[k].url == *url {
            proof {
                assert(urls_of(es.deep_view())[k as int] == url@);
            }
            return true;
        }
        k += 1;
    }
    proof {
        assert forall|m: int| 0 <= m < es.deep_view().len() implies urls_of(es.deep_view())[m]
            != url@ by {
            assert(urls_of(es.deep_view())[m] == es.deep_view()[m].url);
        }
    }
    false
}

/// Removing the last frame lowers the count at its depth by one and leaves
/// the other counts alone; if that depth lies within the measure's window,
/// the measure strictly decreases.
proof fn lemma_measure_drop_last(p: Seq<FrameView>, d: int)
    requires
        p.len() > 0,
        p.last().depth == d,
        0 <= d < MAX_DEPTH as int + 2,
    ensures
        lex_less(depth_measure(p.drop_last()), depth_measure(p)),
{
    let a = depth_measure(p.drop_last());
    let b = depth_measure(p);
    assert(a[d] < b[d]);
    assert(forall|j: int| 0 <= j < d ==> a[j] == b[j]);
}

/// Counting distributes over concatenation.
proof fn lemma_depth_count_append(p: Seq<FrameView>, q: Seq<FrameView>, d: int)
    ensures
        depth_count(p + q, d) == depth_count(p, d) + depth_count(q, d),
    decreases q.len(),
{
    if q.len() == 0 {
        assert(p + q =~= p);
    } else {
        assert((p + q).drop_last() =~= p + q.drop_last());
        assert((p + q).last() == q.last());
        lemma_depth_count_append(p, q.drop_last(), d);
    }
}

/// Frames all lying at one depth count only toward that depth.
proof fn lemma_depth_count_uniform(q: Seq<FrameView>, dd: nat, d: int)
    requires
        forall|k: int| 0 <= k < q.len() ==> (#[trigger] q[k]).depth == dd,
    ensures
        depth_count(q, d) == if d == dd {
            q.len()
        } else {
            0
        },
    decreases q.len(),
{
    if q.len() > 0 {
        lemma_depth_count_uniform(q.drop_last(), dd, d);
    }
}

/// Replacing the top frame with any number of frames one depth deeper
/// strictly decreases the measure, because the count at the removed frame's
/// own depth drops while every shallower count is untouched.
proof fn lemma_measure_pop_push(p: Seq<FrameView>, q: Seq<FrameView>, d: int)
    requires
        p.len() > 0,
        p.last().depth == d,
        0 <= d <= MAX_DEPTH as int,
        forall|k: int| 0 <= k < q.len() ==> (#[trigger] q[k]).depth == d + 1,
    ensures
        lex_less(depth_measure(p.drop_last() + q), depth_measure(p)),
{
    let a = depth_measure(p.drop_last() + q);
    let b = depth_measure(p);
    assert forall|e: int| 0 <= e < MAX_DEPTH as int + 2 implies a[e] == depth_count(
        p.drop_last(),
        e,
    ) + depth_count(q, e) by {
        lemma_depth_count_append(p.drop_last(), q, e);
    }
    assert forall|e: int| 0 <= e < MAX_DEPTH as int + 2 implies depth_count(q, e) == (if e == d
        + 1 {
        q.len()
    } else {
        0
    }) by {
        lemma_depth_count_uniform(q, (d + 1) as nat, e);
    }
    assert(a[d] < b[d]);
    assert(forall|j: int| 0 <= j < d ==> a[j] == b[j]);
}

/// Appending one more parsed entry extends the fold by that entry exactly
/// when its URL is not yet present.
proof fn lemma_dedup_append_snoc(es: Seq<UrlEntryView>, p: Seq<UrlEntryView>, e: UrlEntryView)
    ensures
        urls_of(dedup_append(es, p)).contains(e.url) ==> dedup_append(es, p.push(e))
            == dedup_append(es, p),
        !urls_of(dedup_append(es, p)).contains(e.url) ==> dedup_append(es, p.push(e))
            == dedup_append(es, p).push(e),
    decreases p.len(),
{
    if p.len() == 0 {
        let single = p.push(e);
        assert(dedup_append(es, p) == es);
        assert(single[0] == e);
        assert(single.drop_first() =~= Seq::<UrlEntryView>::empty());
        let es2 = if urls_of(es).contains(e.url) {
            es
        } else {
            es.push(e)
        };
        assert(dedup_append(es, single) == dedup_append(es2, single.drop_first()));
        assert(dedup_append(es2, single.drop_first()) == es2);
    } else {
        let e0 = p[0];
        let es2 = if urls_of(es).contains(e0.url) {
            es
        } else {
            es.push(e0)
        };
        assert(p.push(e)[0] == p[0]);
        assert(p.push(e).drop_first() =~= p.drop_first().push(e));
        assert(dedup_append(es, p.push(e)) == dedup_append(es2, p.drop_first().push(e)));
        assert(dedup_append(es, p) == dedup_append(es2, p.drop_first()));
        lemma_dedup_append_snoc(es2, p.drop_first(), e);
    }
}

/// Folding a parsed document into a distinct collection keeps it distinct,
/// keeps the existing entries in place, and ends with every URL of the
/// document present — so each leaf URL is visited exactly once, in
/// first-discovery order.
pub proof fn lemma_dedup_append_visits_once(es: Seq<UrlEntryView>, parsed: Seq<UrlEntryView>)
    requires
        distinct_urls(urls_of(es)),
    ensures
        distinct_urls(urls_of(dedup_append(es, parsed))),
        dedup_append(es, parsed).len() >= es.len(),
        dedup_append(es, parsed).take(es.len() as int) == es,
        forall|k: int|
            0 <= k < parsed.len() ==> urls_of(dedup_append(es, parsed)).contains(
                #[trigger] parsed[k].url,
            ),
        forall|u: Seq<char>|
            urls_of(dedup_append(es, parsed)).contains(u) ==> urls_of(es).contains(u) || urls_of(
                parsed,
            ).contains(u),
    decreases parsed.len(),
{
    if parsed.len() == 0 {
        assert(dedup_append(es, parsed) == es);
        assert(es.take(es.len() as int) =~= es);
    } else {
        let e = parsed[0];
        let es2 = if urls_of(es).contains(e.url) {
            es
        } else {
            es.push(e)
        };
        assert(urls_of(es.push(e)) =~= urls_of(es).push(e.url));
        if !urls_of(es).contains(e.url) {
            assert forall|a: int, b: int| 0 <= a < b < urls_of(es2).len() implies urls_of(
                es2,
            )[a] != urls_of(es2)[b] by {
                if b == urls_of(es).len() {
                    if urls_of(es)[a] == e.url {
                        assert(urls_of(es).contains(e.url));
                    }
                }
            }
            assert(urls_of(es2)[urls_of(es).len() as int] == e.url);
        }
        assert(urls_of(es2).contains(e.url));
        lemma_dedup_append_visits_once(es2, parsed.drop_first());
        let d = dedup_append(es, parsed);
        assert(d == dedup_append(es2, parsed.drop_first()));
        assert(es.len() <= es2.len() <= d.len());
        assert forall|i: int| 0 <= i < es.len() implies d[i] == es[i] by {
            assert(d.take(es2.len() as int)[i] == d[i]);
            assert(d.take(es2.len() as int)[i] == es2[i]);
        }
        assert(d.take(es.len() as int) =~= es);
        assert forall|k: int| 0 <= k < parsed.len() implies urls_of(d).contains(
            #[trigger] parsed[k].url,
        ) by {
            if k == 0 {
                lemma_dedup_keeps_existing(es2, parsed.drop_first(), e.url);
            } else {
                assert(parsed.drop_first()[k - 1] == parsed[k]);
            }
        }
        assert forall|u: Seq<char>| urls_of(d).contains(u) implies urls_of(es).contains(u)
            || urls_of(parsed).contains(u) by {
            if urls_of(es2).contains(u) {
                let i = choose|i: int|
                    0 <= i < urls_of(es2).len() && urls_of(es2)[i] == u;
                if i < urls_of(es).len() {
                    assert(urls_of(es)[i] == u);
                } else {
                    assert(u == e.url);
                    assert(urls_of(parsed)[0] == e.url);
                }
            } else {
                assert(urls_of(parsed.drop_first()).contains(u));
                let k = choose|k: int|
                    0 <= k < urls_of(parsed.drop_first()).len() && urls_of(
                        parsed.drop_first(),
                    )[k] == u;
                assert(urls_of(parsed)[k + 1] == u);
            }
        }
    }
}

/// A URL already present survives the fold.
proof fn lemma_dedup_keeps_existing(es: Seq<UrlEntryView>, parsed: Seq<UrlEntryView>, u: Seq<char>)
    requires
        urls_of(es).contains(u),
    ensures
        urls_of(dedup_append(es, parsed)).contains(u),
    decreases parsed.len(),
{
    if parsed.len() > 0 {
        let e = parsed[0];
        let es2 = if urls_of(es).contains(e.url) {
            es
        } else {
            es.push(e)
        };
        assert(urls_of(es.push(e)) =~= urls_of(es).push(e.url));
        let k = choose|k: int| 0 <= k < urls_of(es).len() && urls_of(es)[k] == u;
        assert(urls_of(es2)[k] == u);
        lemma_dedup_keeps_existing(es2, parsed.drop_first(), u);
    }
}


/// One fetched document of a reference tree: a reference and the body
/// filed under it.
pub struct Document {
    pub url: String,
    pub body: String,
}

/// Mathematical value of a [`Document`].
pub ghost struct DocumentView {
    pub url: Seq<char>,
    pub body: Seq<char>,
}

impl View for Document {
    type V = DocumentView;

    open spec fn view(&self) -> DocumentView {
        DocumentView { url: self.url@, body: self.body@ }
    }
}

impl DeepView for Document {
    type V = DocumentView;

    open spec fn deep_view(&self) -> DocumentView {
        self.view()
    }
}

/// The body filed under a reference, taking the first match; `None` models
/// a failing fetch.
pub open spec fn lookup_doc(docs: Seq<DocumentView>, url: Seq<char>) -> Option<Seq<char>>
    decreases docs.len(),
{
    if docs.len() == 0 {
        None
    } else if docs[0].url == url {
        Some(docs[0].body)
    } else {
        lookup_doc(docs.drop_first(), url)
    }
}

/// The pending stack a traversal starts from: the root at depth zero.
pub open spec fn root_frames(root: Seq<char>) -> Seq<FrameView> {
    seq![FrameView { url: root, depth: 0 }]
}

/// The whole traversal of a reference tree, as one total mathematical
/// function over the pending stack (top last): an over-deep frame is
/// skipped; a missing document fails the whole traversal; an index replaces
/// its frame by its children one depth deeper, first child on top; a leaf
/// folds its entries into the collection. Totality is the termination half
/// of the cycle-safety property: the per-depth frame counts, shallowest
/// first, decrease lexicographically at every step, for any document map —
/// cyclic or self-referencing ones included.
pub open spec fn crawl_spec(
    docs: Seq<DocumentView>,
    pending: Seq<FrameView>,
    entries: Seq<UrlEntryView>,
) -> Option<Seq<UrlEntryView>>
    decreases
            depth_count(pending, 0),
            depth_count(pending, 1),
            depth_count(pending, 2),
            depth_count(pending, 3),
            depth_count(pending, 4),
            depth_count(pending, 5),
            depth_count(pending, 6),
            depth_count(pending, 7),
            depth_count(pending, 8),
            depth_count(pending, 9),
            depth_count(pending, 10),
            depth_count(pending, 11),
    when bounded_depths(pending)
    via crawl_spec_dec
{
    if pending.len() == 0 {
        Some(entries)
    } else {
        let f = pending.last();
        if f.depth > MAX_DEPTH as nat {
            crawl_spec(docs, pending.drop_last(), entries)
        } else {
            match lookup_doc(docs, f.url) {
                None => None,
                Some(body) => if is_index_doc(body) {
                    crawl_spec(
                        docs,
                        pending.drop_last() + child_frames(index_references(body), f.depth + 1),
                        entries,
                    )
                } else {
                    crawl_spec(
                        docs,
                        pending.drop_last(),
                        dedup_append(entries, sitemap_entries(body)),
                    )
                },
            }
        }
    }
}

#[via_fn]
proof fn crawl_spec_dec(
    docs: Seq<DocumentView>,
    pending: Seq<FrameView>,
    entries: Seq<UrlEntryView>,
) {
    if bounded_depths(pending) && pending.len() > 0 {
        lemma_step_measure(docs, pending);
    }
}

/// The leaf entries of a reference tree in discovery order, undeduplicated:
/// the same traversal, but each leaf's entries are concatenated as parsed.
pub open spec fn leaf_entries(docs: Seq<DocumentView>, pending: Seq<FrameView>) -> Option<
    Seq<UrlEntryView>,
>
    decreases
            depth_count(pending, 0),
            depth_count(pending, 1),
            depth_count(pending, 2),
            depth_count(pending, 3),
            depth_count(pending, 4),
            depth_count(pending, 5),
            depth_count(pending, 6),
            depth_count(pending, 7),
            depth_count(pending, 8),
            depth_count(pending, 9),
            depth_count(pending, 10),
            depth_count(pending, 11),
    when bounded_depths(pending)
    via leaf_entries_dec
{
    if pending.len() == 0 {
        Some(Seq::empty())
    } else {
        let f = pending.last();
        if f.depth > MAX_DEPTH as nat {
            leaf_entries(docs, pending.drop_last())
        } else {
            match lookup_doc(docs, f.url) {
                None => None,
                Some(body) => if is_index_doc(body) {
                    leaf_entries(
                        docs,
                        pending.drop_last() + child_frames(index_references(body), f.depth + 1),
                    )
                } else {
                    match leaf_entries(docs, pending.drop_last()) {
                        None => None,
                        Some(rest) => Some(sitemap_entries(body) + rest),
                    }
                },
            }
        }
    }
}

#[via_fn]
proof fn leaf_entries_dec(docs: Seq<DocumentView>, pending: Seq<FrameView>) {
    if bounded_depths(pending) && pending.len() > 0 {
        lemma_step_measure(docs, pending);
    }
}

/// Dropping the top frame keeps the depths bounded and lowers only its
/// own depth's count.
proof fn lemma_counts_drop(pending: Seq<FrameView>)
    requires
        bounded_depths(pending),
        pending.len() > 0,
    ensures
        bounded_depths(pending.drop_last()),
        forall|e: int|
            #[trigger] depth_count(pending.drop_last(), e) == depth_count(pending, e) - (
            if pending.last().depth == e {
                1int
            } else {
                0int
            }),
{
    assert forall|k: int| 0 <= k < pending.drop_last().len() implies (
    #[trigger] pending.drop_last()[k]).depth <= MAX_DEPTH as nat + 1 by {
        assert(pending.drop_last()[k] == pending[k]);
    }
}

/// Replacing the top frame by frames one depth deeper keeps the depths
/// bounded, lowers the count at the removed frame's depth and raises only
/// the one below it.
proof fn lemma_counts_children(pending: Seq<FrameView>, q: Seq<FrameView>)
    requires
        bounded_depths(pending),
        pending.len() > 0,
        pending.last().depth <= MAX_DEPTH as nat,
        forall|k: int| 0 <= k < q.len() ==> (#[trigger] q[k]).depth == pending.last().depth + 1,
    ensures
        bounded_depths(pending.drop_last() + q),
        forall|e: int|
            #[trigger] depth_count(pending.drop_last() + q, e) == depth_count(pending, e) - (
            if pending.last().depth == e {
                1int
            } else {
                0int
            }) + (if pending.last().depth + 1 == e {
                q.len() as int
            } else {
                0int
            }),
{
    let d = pending.last().depth;
    lemma_counts_drop(pending);
    assert forall|k: int| 0 <= k < (pending.drop_last() + q).len() implies (
    #[trigger] (pending.drop_last() + q)[k]).depth <= MAX_DEPTH as nat + 1 by {
        if k < pending.drop_last().len() {
            assert((pending.drop_last() + q)[k] == pending.drop_last()[k]);
        } else {
            assert((pending.drop_last() + q)[k] == q[k - pending.drop_last().len()]);
        }
    }
    assert forall|e: int| #[trigger] depth_count(pending.drop_last() + q, e)
        == depth_count(pending, e) - (if d == e {
        1int
    } else {
        0int
    }) + (if d + 1 == e {
        q.len() as int
    } else {
        0int
    }) by {
        lemma_depth_count_append(pending.drop_last(), q, e);
        lemma_depth_count_uniform(q, (d + 1) as nat, e);
    }
}

/// Whatever a step does to the top frame — skip it, expand an index, fold
/// a leaf — the per-depth counts move as [`lemma_counts_drop`] and
/// [`lemma_counts_children`] say, for the frames the step actually queues.
proof fn lemma_step_measure(docs: Seq<DocumentView>, pending: Seq<FrameView>)
    requires
        bounded_depths(pending),
        pending.len() > 0,
    ensures
        bounded_depths(pending.drop_last()),
        forall|e: int|
            #[trigger] depth_count(pending.drop_last(), e) == depth_count(pending, e) - (
            if pending.last().depth == e {
                1int
            } else {
                0int
            }),
        pending.last().depth <= MAX_DEPTH as nat ==> (match lookup_doc(
            docs,
            pending.last().url,
        ) {
            Some(body) => {
                let q = child_frames(index_references(body), pending.last().depth + 1);
                &&& bounded_depths(pending.drop_last() + q)
                &&& forall|e: int|
                    #[trigger] depth_count(pending.drop_last() + q, e) == depth_count(
                        pending,
                        e,
                    ) - (if pending.last().depth == e {
                        1int
                    } else {
                        0int
                    }) + (if pending.last().depth + 1 == e {
                        q.len() as int
                    } else {
                        0int
                    })
            },
            None => true,
        }),
{
    lemma_counts_drop(pending);
    if pending.last().depth <= MAX_DEPTH as nat {
        match lookup_doc(docs, pending.last().url) {
            Some(body) => {
                let q = child_frames(index_references(body), pending.last().depth + 1);
                lemma_counts_children(pending, q);
            },
            None => {},
        }
    }
}

/// Deduplicating one batch after another is deduplicating their
/// Deduplicating one batch after another is deduplicating their
/// concatenation.
proof fn lemma_dedup_append_concat(es: Seq<UrlEntryView>, a: Seq<UrlEntryView>, b: Seq<
    UrlEntryView,
>)
    ensures
        dedup_append(es, a + b) == dedup_append(dedup_append(es, a), b),
    decreases a.len(),
{
    if a.len() == 0 {
        assert(a + b =~= b);
        assert(dedup_append(es, a) == es);
    } else {
        let e = a[0];
        let es2 = if urls_of(es).contains(e.url) {
            es
        } else {
            es.push(e)
        };
        assert((a + b)[0] == a[0]);
        assert((a + b).drop_first() =~= a.drop_first() + b);
        assert(dedup_append(es, a + b) == dedup_append(es2, a.drop_first() + b));
        assert(dedup_append(es, a) == dedup_append(es2, a.drop_first()));
        lemma_dedup_append_concat(es2, a.drop_first(), b);
    }
}

/// The whole-tree collection law: the traversal of a reference tree
/// succeeds exactly when every reference it reaches within the ceiling
/// resolves, and then its result is precisely the tree's leaf entries in
/// discovery order, folded into the collection with each URL kept once at
/// its first discovery.
pub proof fn lemma_crawl_collects_leaf_entries(
    docs: Seq<DocumentView>,
    pending: Seq<FrameView>,
    entries: Seq<UrlEntryView>,
)
    requires
        bounded_depths(pending),
    ensures
        crawl_spec(docs, pending, entries) == match leaf_entries(docs, pending) {
            None => None::<Seq<UrlEntryView>>,
            Some(raw) => Some(dedup_append(entries, raw)),
        },
    decreases
            depth_count(pending, 0),
            depth_count(pending, 1),
            depth_count(pending, 2),
            depth_count(pending, 3),
            depth_count(pending, 4),
            depth_count(pending, 5),
            depth_count(pending, 6),
            depth_count(pending, 7),
            depth_count(pending, 8),
            depth_count(pending, 9),
            depth_count(pending, 10),
            depth_count(pending, 11),
{
    if pending.len() == 0 {
        assert(dedup_append(entries, Seq::<UrlEntryView>::empty()) == entries);
    } else {
        lemma_step_measure(docs, pending);
        let f = pending.last();
        if f.depth > MAX_DEPTH as nat {
            lemma_crawl_collects_leaf_entries(docs, pending.drop_last(), entries);
        } else {
            match lookup_doc(docs, f.url) {
                None => {},
                Some(body) => {
                    if is_index_doc(body) {
                        let p2 = pending.drop_last() + child_frames(
                            index_references(body),
                            f.depth + 1,
                        );
                        lemma_crawl_collects_leaf_entries(docs, p2, entries);
                    } else {
                        let leafs = sitemap_entries(body);
                        lemma_crawl_collects_leaf_entries(
                            docs,
                            pending.drop_last(),
                            dedup_append(entries, leafs),
                        );
                        match leaf_entries(docs, pending.drop_last()) {
                            None => {},
                            Some(rest) => {
                                lemma_dedup_append_concat(entries, leafs, rest);
                            },
                        }
                    }
                },
            }
        }
    }
}

/// The body filed under a reference, as [`lookup_doc`] defines it.
fn find_document(docs: &Vec<Document>, url: &String) -> (r: Option<String>)
    ensures
        r.deep_view() == lookup_doc(docs.deep_view(), url@),
{
    let ghost ds = docs.deep_view();
    let n = docs.len();
    let mut i: usize = 0;
    proof {
        assert(ds.skip(0) =~= ds);
    }
    while i < n
        invariant
            ds == docs.deep_view(),
            n == ds.len(),
            i <= n,
            lookup_doc(ds, url@) == lookup_doc(ds.skip(i as int), url@),
        decreases n - i,
    {
        let ghost suffix = ds.skip(i as int);
        proof {
            assert(suffix[0] == ds[i as int]);
            assert(suffix.drop_first() =~= ds.skip(i + 1));
        }
        if docs[i].url == *url {
            return Some(docs[i].body.clone());
        }
        i += 1;
    }
    proof {
        assert(ds.skip(n as int) =~= Seq::<DocumentView>::empty());
    }
    None
}

/// Runs a whole traversal against an in-memory document map. This is the
/// whole-tree law in executable form: the function terminates for every
/// document map, cyclic trees included; it fails exactly when a reference
/// reached within the ceiling has no document, naming that reference; and
/// on success it returns precisely the tree's leaf entries in discovery
/// order, every URL exactly once, at the position of its first discovery.
pub fn traverse_documents(root: String, docs: &Vec<Document>) -> (r: Result<Vec<UrlEntry>, String>)
    ensures
        crawl_spec(docs.deep_view(), root_frames(root@), Seq::empty()) == match r {
            Ok(es) => Some(es.deep_view()),
            Err(_) => None::<Seq<UrlEntryView>>,
        },
        r matches Ok(es) ==> leaf_entries(docs.deep_view(), root_frames(root@)) matches Some(raw)
            && es.deep_view() == dedup_append(Seq::empty(), raw) && distinct_urls(
            urls_of(es.deep_view()),
        ) && (forall|k: int|
            0 <= k < raw.len() ==> urls_of(es.deep_view()).contains(#[trigger] raw[k].url))
            && (forall|u: Seq<char>|
            urls_of(es.deep_view()).contains(u) ==> urls_of(raw).contains(u)),
        r matches Err(u) ==> lookup_doc(docs.deep_view(), u@) is None,
{
    let ghost dsv = docs.deep_view();
    proof {
        assert(bounded_depths(root_frames(root@)));
        lemma_crawl_collects_leaf_entries(dsv, root_frames(root@), Seq::empty());
    }
    let ghost target = crawl_spec(dsv, root_frames(root@), Seq::empty());
    let mut t = Traversal::new(root);
    proof {
        assert(t@.pending == root_frames(root@));
        assert(crawl_spec(dsv, t@.pending, t@.entries) == target);
    }
    let mut done = false;
    while !done
        invariant
            t.wf(),
            dsv == docs.deep_view(),
            crawl_spec(dsv, t@.pending, t@.entries) == target,
            target == crawl_spec(dsv, root_frames(root@), Seq::empty()),
            done ==> t@.pending.len() == 0,
        decreases
                depth_count(t@.pending, 0),
                depth_count(t@.pending, 1),
                depth_count(t@.pending, 2),
                depth_count(t@.pending, 3),
                depth_count(t@.pending, 4),
                depth_count(t@.pending, 5),
                depth_count(t@.pending, 6),
                depth_count(t@.pending, 7),
                depth_count(t@.pending, 8),
                depth_count(t@.pending, 9),
                depth_count(t@.pending, 10),
                depth_count(t@.pending, 11),
                (if done {
                    0int
                } else {
                    1int
                }),
    {
        let ghost pre = t@;
        match t.next_step() {
            FetchStep::Done => {
                proof {
                    assert(pre.pending.len() == 0);
                }
                done = true;
            },
            FetchStep::SkipTooDeep(_) => {
                proof {
                    assert(pre.pending.len() > 0 && pre.pending.last().depth > MAX_DEPTH
                        as nat);
                    lemma_step_measure(dsv, pre.pending);
                    assert(crawl_spec(dsv, pre.pending, pre.entries) == crawl_spec(
                        dsv,
                        pre.pending.drop_last(),
                        pre.entries,
                    ));
                }
            },
            FetchStep::Fetch(u) => {
                proof {
                    assert(pre.pending.len() > 0 && pre.pending.last().depth <= MAX_DEPTH
                        as nat);
                }
                match find_document(docs, &u) {
                    None => {
                        proof {
                            assert(lookup_doc(dsv, pre.pending.last().url) is None);
                            assert(crawl_spec(dsv, pre.pending, pre.entries)
                                is None);
                        }
                        return Err(u);
                    },
                    Some(body) => {
                        t.on_document(body.as_str());
                        proof {
                            assert(lookup_doc(dsv, pre.pending.last().url) == Some(body@));
                            lemma_step_measure(dsv, pre.pending);
                            if is_index_doc(body@) {
                                assert(crawl_spec(dsv, pre.pending, pre.entries)
                                    == crawl_spec(
                                    dsv,
                                    pre.pending.drop_last() + child_frames(
                                        index_references(body@),
                                        pre.pending.last().depth + 1,
                                    ),
                                    pre.entries,
                                ));
                            } else {
                                assert(crawl_spec(dsv, pre.pending, pre.entries)
                                    == crawl_spec(
                                    dsv,
                                    pre.pending.drop_last(),
                                    dedup_append(pre.entries, sitemap_entries(body@)),
                                ));
                            }
                        }
                    },
                }
            },
        }
    }
    proof {
        assert(crawl_spec(dsv, t@.pending, t@.entries) == Some(t@.entries));
        match leaf_entries(dsv, root_frames(root@)) {
            None => {},
            Some(raw) => {
                lemma_dedup_append_visits_once(Seq::empty(), raw);
                assert forall|u: Seq<char>|
                    urls_of(dedup_append(Seq::empty(), raw)).contains(u) implies urls_of(
                    raw,
                ).contains(u) by {
                    assert(!urls_of(Seq::empty()).contains(u));
                }
            },
        }
    }
    Ok(t.into_entries())
}

} // verus!

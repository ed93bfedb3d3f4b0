//! Configuration-side logic that needs no I/O: masking a credential for
//! display, choosing which configured sources a run processes, and the
//! textual scheme fixup applied to a source URL before validation.

use vstd::prelude::*;
use vstd::string::StrSliceExecFns;
use vstd::string::StringExecFns;

use crate::entry::Source;
use crate::textscan::chars_of;
use crate::textscan::find_from;
use crate::textscan::find_from_spec;

verus! {

/// A credential as displayed: hidden entirely when short, else its first
/// and last few characters around an ellipsis. The empty credential shows
/// as not set.
pub open spec fn mask_key_spec(s: Seq<char>) -> Seq<char> {
    if s.len() == 0 {
        "(not set)"@
    } else if s.len() <= 8 {
        s.take(
            if s.len() < 2 {
                s.len() as int
            } else {
                2
            },
        ) + "***"@
    } else {
        s.take(4) + "..."@ + s.skip(s.len() - 4)
    }
}

/// Masks a credential for display.
pub fn mask_key(key: &str) -> (r: String)
    ensures
        r@ == mask_key_spec(key@),
{
    let n = key.unicode_len();
    if n == 0 {
        "(not set)".to_owned()
    } else if n <= 8 {
        let keep = if n < 2 {
            n
        } else {
            2
        };
        let mut r = key.substring_char(0, keep).to_owned();
        r.append("***");
        proof {
            assert(r@ =~= mask_key_spec(key@));
        }
        r
    } else {
        let mut r = key.substring_char(0, 4).to_owned();
        r.append("...");
        let tail = key.substring_char(n - 4, n);
        r.append(tail);
        proof {
            assert(r@ =~= mask_key_spec(key@));
        }
        r
    }
}

/// Why no source could be selected for processing.
#[derive(Clone, Copy, PartialEq, Eq, Structural, Debug)]
pub enum SelectError {
    /// Nothing is configured at all.
    NoSources,
    /// An identity filter was given and matched nothing.
    NoMatch,
}

/// The configured sources whose identity the filter names, in their given
/// order.
pub open spec fn filter_by_ids(ss: Seq<Source>, ids: Seq<i64>) -> Seq<Source>
    decreases ss.len(),
{
    if ss.len() == 0 {
        Seq::empty()
    } else {
        let rest = filter_by_ids(ss.drop_last(), ids);
        if ids.contains(ss.last().id) {
            rest.push(ss.last())
        } else {
            rest
        }
    }
}

/// Whether the filter names this identity.
fn ids_contain(ids: &Vec<i64>, id: i64) -> (r: bool)
    ensures
        r == ids@.contains(id),
{
    let n = ids.len();
    let mut k: usize = 0;
    while k < n
        invariant
            n == ids@.len(),
            k <= n,
            forall|m: int| 0 <= m < k ==> ids@[m] != id,
        decreases n - k,
    {
        if ids[k] == id {
            return true;
        }
        k += 1;
    }
    false
}

/// An exact copy of a configured source.
fn duplicate_source(s: &Source) -> (r: Source)
    ensures
        r == *s,
{
    Source {
        id: s.id,
        source_type: s.source_type.clone(),
        source_url: s.source_url.clone(),
        api_key: s.api_key.clone(),
        host: s.host.clone(),
        searchengine: s.searchengine.clone(),
        first_run_completed: s.first_run_completed,
    }
}

/// Chooses the sources a run processes: all of them, or those an identity
/// filter names. An empty configuration, or a filter that matches nothing,
/// is an error.
pub fn select_sources(sources: &Vec<Source>, filter: Option<&Vec<i64>>) -> (r: Result<
    Vec<Source>,
    SelectError,
>)
    ensures
        sources@.len() == 0 ==> r == Err::<Vec<Source>, SelectError>(SelectError::NoSources),
        sources@.len() > 0 ==> match filter {
            None => r matches Ok(v) && v@ == sources@,
            Some(ids) => if filter_by_ids(sources@, ids@).len() == 0 {
                r == Err::<Vec<Source>, SelectError>(SelectError::NoMatch)
            } else {
                r matches Ok(v) && v@ == filter_by_ids(sources@, ids@)
            },
        },
{
    if sources.len() == 0 {
        return Err(SelectError::NoSources);
    }
    match filter {
        None => {
            let n = sources.len();
            let mut v: Vec<Source> = Vec::new();
            let mut k: usize = 0;
            while k < n
                invariant
                    n == sources@.len(),
                    k <= n,
                    v@ == sources@.take(k as int),
                decreases n - k,
            {
                v.push(duplicate_source(&sources[k]));
                proof {
                    assert(v@ =~= sources@.take(k + 1));
                }
                k += 1;
            }
            proof {
                assert(sources@.take(n as int) =~= sources@);
            }
            Ok(v)
        },
        Some(ids) => {
            let n = sources.len();
            let mut v: Vec<Source> = Vec::new();
            let mut k: usize = 0;
            proof {
                assert(filter_by_ids(sources@.take(0), ids@) =~= Seq::<Source>::empty());
                assert(v@ =~= filter_by_ids(sources@.take(0), ids@));
            }
            while k < n
                invariant
                    n == sources@.len(),
                    k <= n,
                    v@ == filter_by_ids(sources@.take(k as int), ids@),
                decreases n - k,
            {
                proof {
                    assert(sources@.take(k + 1).drop_last() =~= sources@.take(k as int));
                    assert(sources@.take(k + 1).last() == sources@[k as int]);
                }
                if ids_contain(ids, sources[k].id) {
                    v.push(duplicate_source(&sources[k]));
                }
                k += 1;
            }
            proof {
                assert(sources@.take(n as int) =~= sources@);
            }
            if v.len() == 0 {
                Err(SelectError::NoMatch)
            } else {
                Ok(v)
            }
        },
    }
}

/// The scheme separator token.
pub open spec fn scheme_sep() -> Seq<char> {
    seq![':', '/', '/']
}

/// The textual scheme fixup of a source URL: a reference without a scheme
/// gets the secure prefix, an insecure scheme is upgraded, the secure
/// scheme stays; any other scheme is refused.
pub open spec fn ensure_https_spec(s: Seq<char>) -> Option<Seq<char>> {
    if find_from_spec(s, scheme_sep(), 0) is None {
        Some("https://"@ + s)
    } else if s.len() >= 8 && s.take(8) == "https://"@ {
        Some(s)
    } else if s.len() >= 7 && s.take(7) == "http://"@ {
        Some("https://"@ + s.skip(7))
    } else {
        None
    }
}

/// Whether `cs` begins with `p`.
fn has_prefix(cs: &Vec<char>, p: &Vec<char>) -> (r: bool)
    ensures
        r == (cs@.len() >= p@.len() && cs@.take(p@.len() as int) == p@),
{
    let pn = p.len();
    if cs.len() < pn {
        return false;
    }
    let mut k: usize = 0;
    while k < pn
        invariant
            pn == p@.len() <= cs@.len(),
            k <= pn,
            forall|m: int| 0 <= m < k ==> cs@[m] == p@[m],
        decreases pn - k,
    {
        if cs[k] != p[k] {
            proof {
                assert(cs@.take(pn as int)[k as int] != p@[k as int]);
            }
            return false;
        }
        k += 1;
    }
    proof {
        assert(cs@.take(pn as int) =~= p@);
    }
    true
}

/// Applies the scheme fixup, as [`ensure_https_spec`] defines it.
pub fn ensure_https_scheme(url: &str) -> (r: Option<String>)
    ensures
        r.deep_view() == ensure_https_spec(url@),
{
    let cs = chars_of(url);
    let mut sep: Vec<char> = Vec::new();
    sep.push(':');
    sep.push('/');
    sep.push('/');
    proof {
        assert(sep@ =~= scheme_sep());
    }
    match find_from(&cs, &sep, 0) {
        None => {
            let mut r = "https://".to_owned();
            r.append(url);
            proof {
                assert(r@ =~= "https://"@ + url@);
            }
            Some(r)
        },
        Some(_) => {
            let mut https: Vec<char> = Vec::new();
            https.push('h');
            https.push('t');
            https.push('t');
            https.push('p');
            https.push('s');
            https.push(':');
            https.push('/');
            https.push('/');
            let mut http: Vec<char> = Vec::new();
            http.push('h');
            http.push('t');
            http.push('t');
            http.push('p');
            http.push(':');
            http.push('/');
            http.push('/');
            proof {
                reveal_strlit("https://");
                reveal_strlit("http://");
                assert(https@ =~= "https://"@);
                assert(http@ =~= "http://"@);
            }
            if has_prefix(&cs, &https) {
                Some(url.to_owned())
            } else if has_prefix(&cs, &http) {
                let n = url.unicode_len();
                let tail = url.substring_char(7, n);
                let mut r = "https://".to_owned();
                r.append(tail);
                proof {
                    assert(r@ =~= "https://"@ + url@.skip(7));
                }
                Some(r)
            } else {
                None
            }
        },
    }
}

} // verus!

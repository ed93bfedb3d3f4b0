//! The batch submission engine: chunking of the submission set into
//! protocol-sized batches, the two wire shapes, and the status-to-outcome
//! policy.
//!
//! The driver owns the network: it asks [`SubmissionRun::current_batch`]
//! for the next batch, builds its request with [`request_for_batch`], sends
//! it, and reports the response status through
//! [`SubmissionRun::record_response`]. A fatal status aborts the remaining
//! batches: the machine yields no further batch. Persistence is per batch —
//! the driver records a batch's entries right after that batch succeeds, so
//! an aborted later batch leaves earlier batches durably recorded.

use vstd::prelude::*;
use vstd::string::StringExecFns;
use vstd::utf8::encode_utf8;

use crate::entry::SubmitEntry;
use crate::entry::SubmitEntryView;

verus! {

/// Protocol ceiling on the number of URLs in one submission call.
pub const MAX_BATCH_SIZE: usize = 10_000;

/// Why a submission run failed; each variant is fatal for the current run.
/// A rate limit may be retried later by the caller, never automatically.
#[derive(Clone, Copy, PartialEq, Eq, Structural, Debug)]
pub enum SubmitError {
    BadRequest,
    Unauthorized,
    Forbidden,
    UnprocessableEntity,
    RateLimited,
}

/// The error named, exactly as the run surfaces it.
pub open spec fn error_text(e: SubmitError) -> Seq<char> {
    match e {
        SubmitError::BadRequest => "Bad Request"@,
        SubmitError::Unauthorized => "Unauthorized"@,
        SubmitError::Forbidden => "Forbidden"@,
        SubmitError::UnprocessableEntity => "Unprocessable Entity"@,
        SubmitError::RateLimited => "Rate limit exceeded"@,
    }
}

impl SubmitError {
    /// The error's name.
    pub fn message(&self) -> (r: String)
        ensures
            r@ == error_text(*self),
    {
        match self {
            SubmitError::BadRequest => "Bad Request".to_owned(),
            SubmitError::Unauthorized => "Unauthorized".to_owned(),
            SubmitError::Forbidden => "Forbidden".to_owned(),
            SubmitError::UnprocessableEntity => "Unprocessable Entity".to_owned(),
            SubmitError::RateLimited => "Rate limit exceeded".to_owned(),
        }
    }
}

/// What a response status means for the run: success, an unexpected status
/// the run continues over, or a fatal failure.
#[derive(Clone, Copy, PartialEq, Eq, Structural, Debug)]
pub enum SubmitOutcome {
    Success,
    Unexpected,
    Fatal(SubmitError),
}

/// The status-to-outcome policy: 200 and 202 succeed; 400, 401, 403, 422
/// and 429 are fatal for this run; any other status is unexpected and the
/// run continues.
pub open spec fn classify_status_spec(status: u16) -> SubmitOutcome {
    if status == 200 || status == 202 {
        SubmitOutcome::Success
    } else if status == 400 {
        SubmitOutcome::Fatal(SubmitError::BadRequest)
    } else if status == 401 {
        SubmitOutcome::Fatal(SubmitError::Unauthorized)
    } else if status == 403 {
        SubmitOutcome::Fatal(SubmitError::Forbidden)
    } else if status == 422 {
        SubmitOutcome::Fatal(SubmitError::UnprocessableEntity)
    } else if status == 429 {
        SubmitOutcome::Fatal(SubmitError::RateLimited)
    } else {
        SubmitOutcome::Unexpected
    }
}

/// Classifies a response status.
pub fn classify_status(status: u16) -> (o: SubmitOutcome)
    ensures
        o == classify_status_spec(status),
{
    if status == 200 || status == 202 {
        SubmitOutcome::Success
    } else if status == 400 {
        SubmitOutcome::Fatal(SubmitError::BadRequest)
    } else if status == 401 {
        SubmitOutcome::Fatal(SubmitError::Unauthorized)
    } else if status == 403 {
        SubmitOutcome::Fatal(SubmitError::Forbidden)
    } else if status == 422 {
        SubmitOutcome::Fatal(SubmitError::UnprocessableEntity)
    } else if status == 429 {
        SubmitOutcome::Fatal(SubmitError::RateLimited)
    } else {
        SubmitOutcome::Unexpected
    }
}

/// The length of the batch that starts at `start`: the protocol ceiling, or
/// whatever is left.
pub open spec fn batch_len_spec(total: int, start: int) -> int {
    if total - start >= MAX_BATCH_SIZE {
        MAX_BATCH_SIZE as int
    } else {
        total - start
    }
}

/// Mathematical value of a [`SubmissionRun`].
pub ghost struct SubmissionRunView {
    pub entries: Seq<SubmitEntryView>,
    pub next_start: int,
    pub failed: Option<SubmitError>,
}

/// A submission run over a classified entry list: consecutive batches of at
/// most [`MAX_BATCH_SIZE`], aborted by the first fatal status.
pub struct SubmissionRun {
    entries: Vec<SubmitEntry>,
    next_start: usize,
    failed: Option<SubmitError>,
}

impl View for SubmissionRun {
    type V = SubmissionRunView;

    closed spec fn view(&self) -> SubmissionRunView {
        SubmissionRunView {
            entries: self.entries.deep_view(),
            next_start: self.next_start as int,
            failed: self.failed,
        }
    }
}

impl SubmissionRun {
    /// The machine never points past the end of the entry list.
    pub open spec fn wf(&self) -> bool {
        0 <= self@.next_start <= self@.entries.len()
    }

    /// Starts a run over a classified entry list.
    pub fn new(entries: Vec<SubmitEntry>) -> (r: SubmissionRun)
        ensures
            r.wf(),
            r@.entries == entries.deep_view(),
            r@.next_start == 0,
            r@.failed is None,
    {
        SubmissionRun { entries, next_start: 0, failed: None }
    }

    /// What the run failed with, if it failed.
    pub fn failure(&self) -> (r: Option<SubmitError>)
        ensures
            r == self@.failed,
    {
        self.failed
    }

    /// How many entries have been submitted in full batches so far.
    pub fn committed(&self) -> (r: usize)
        ensures
            r == self@.next_start,
    {
        self.next_start
    }

    /// The next batch to submit: the coming slice of at most
    /// [`MAX_BATCH_SIZE`] entries, or `None` when the run is complete or
    /// failed — after a fatal status no further batch is ever attempted.
    pub fn current_batch(&self) -> (r: Option<Vec<SubmitEntry>>)
        requires
            self.wf(),
        ensures
            match r {
                Some(b) => self@.failed is None && self@.next_start < self@.entries.len()
                    && b.deep_view() == self@.entries.subrange(
                    self@.next_start,
                    self@.next_start + batch_len_spec(self@.entries.len() as int, self@.next_start),
                ) && 1 <= b@.len() <= MAX_BATCH_SIZE,
                None => self@.failed is Some || self@.next_start == self@.entries.len(),
            },
    {
        if self.failed.is_some() {
            return None;
        }
        let total = self.entries.len();
        if self.next_start == total {
            return None;
        }
        let remaining = total - self.next_start;
        let blen = if remaining > MAX_BATCH_SIZE {
            MAX_BATCH_SIZE
        } else {
            remaining
        };
        let end = self.next_start + blen;
        let mut b: Vec<SubmitEntry> = Vec::new();
        let mut k = self.next_start;
        while k < end
            invariant
                self.next_start <= k <= end <= self.entries.deep_view().len(),
                b.deep_view() == self.entries.deep_view().subrange(
                    self.next_start as int,
                    k as int,
                ),
            decreases end - k,
        {
            let ghost pre = b.deep_view();
            b.push(self.entries[k].duplicate());
            proof {
                assert(b.deep_view() =~= pre.push(self.entries.deep_view()[k as int]));
                assert(b.deep_view() =~= self.entries.deep_view().subrange(
                    self.next_start as int,
                    k + 1,
                ));
            }
            k += 1;
        }
        Some(b)
    }

    /// Folds a batch's response status into the run: success or an
    /// unexpected status moves past the batch; a fatal status aborts the
    /// run with its error, the position unmoved.
    pub fn record_response(&mut self, status: u16)
        requires
            old(self).wf(),
            old(self)@.failed is None,
            old(self)@.next_start < old(self)@.entries.len(),
        ensures
            final(self).wf(),
            final(self)@.entries == old(self)@.entries,
            match classify_status_spec(status) {
                SubmitOutcome::Fatal(e) => final(self)@.failed == Some(e)
                    && final(self)@.next_start == old(self)@.next_start,
                _ => final(self)@.failed is None && final(self)@.next_start == old(
                    self,
                )@.next_start + batch_len_spec(old(self)@.entries.len() as int, old(self)@.next_start),
            },
    {
        match classify_status(status) {
            SubmitOutcome::Fatal(e) => {
                self.failed = Some(e);
            },
            _ => {
                let total = self.entries.len();
                let remaining = total - self.next_start;
                let blen = if remaining > MAX_BATCH_SIZE {
                    MAX_BATCH_SIZE
                } else {
                    remaining
                };
                self.next_start = self.next_start + blen;
            },
        }
    }
}


/// The URLs of a sequence of submission entries.
pub open spec fn submit_urls(ss: Seq<SubmitEntryView>) -> Seq<Seq<char>> {
    ss.map_values(|s: SubmitEntryView| s.url)
}

/// A byte the percent-encoding passes through unchanged: an ASCII letter
/// or digit, or one of `-` `.` `_` `~`.
pub open spec fn unreserved_byte(b: u8) -> bool {
    (48 <= b <= 57) || (65 <= b <= 90) || (97 <= b <= 122) || b == 45 || b == 46 || b == 95
        || b == 126
}

/// Uppercase hexadecimal digit of a value below sixteen.
pub open spec fn hex_upper(n: int) -> char {
    if n < 10 {
        (('0' as u8) + n) as u8 as char
    } else {
        (('A' as u8) + (n - 10)) as u8 as char
    }
}

/// What one byte contributes to the percent-encoded form.
pub open spec fn percent_byte(b: u8) -> Seq<char> {
    if unreserved_byte(b) {
        seq![b as char]
    } else {
        seq!['%', hex_upper(b as int / 16), hex_upper(b as int % 16)]
    }
}

/// The percent-encoded form of a byte sequence.
pub open spec fn percent_encode_bytes(bs: Seq<u8>) -> Seq<char>
    decreases bs.len(),
{
    if bs.len() == 0 {
        Seq::empty()
    } else {
        percent_encode_bytes(bs.drop_last()) + percent_byte(bs.last())
    }
}

/// The URL-encoded form of a string: its UTF-8 bytes, each percent-encoded
/// unless unreserved.
pub open spec fn url_encoded(s: Seq<char>) -> Seq<char> {
    percent_encode_bytes(encode_utf8(s))
}

/// Relies on urlencoding::encode: every byte of the argument's UTF-8 form
/// outside `0-9 A-Z a-z - . _ ~` becomes `%XX` with uppercase hex digits,
/// and the rest pass through unchanged.
#[verifier::external_body]
fn percent_encode(s: &str) -> (r: String)
    ensures
        r@ == url_encoded(s@),
{
    urlencoding::encode(s).into_owned()
}

/// Relies on String::push: appends the character to the string.
#[verifier::external_body]
fn push_char(s: &mut String, c: char)
    ensures
        final(s)@ == old(s)@.push(c),
{
    s.push(c);
}

/// What one character contributes to the JSON-escaped form: quote and
/// backslash are escaped, control characters become `\u00XX` with
/// lowercase hex, everything else passes through.
pub open spec fn json_escaped_char(c: char) -> Seq<char> {
    if c == '"' {
        seq!['\\', '"']
    } else if c == '\\' {
        seq!['\\', '\\']
    } else if (c as u32) < 32 {
        seq![
            '\\',
            'u',
            '0',
            '0',
            hex_lower(c as u32 as int / 16),
            hex_lower(c as u32 as int % 16),
        ]
    } else {
        seq![c]
    }
}

/// Lowercase hexadecimal digit of a value below sixteen.
pub open spec fn hex_lower(n: int) -> char {
    if n < 10 {
        (('0' as u8) + n) as u8 as char
    } else {
        (('a' as u8) + (n - 10)) as u8 as char
    }
}

/// The JSON-escaped form of a string's characters.
pub open spec fn json_escaped(s: Seq<char>) -> Seq<char>
    decreases s.len(),
{
    if s.len() == 0 {
        Seq::empty()
    } else {
        json_escaped(s.drop_last()) + json_escaped_char(s.last())
    }
}

/// The JSON string literal denoting `s`.
pub open spec fn json_string(s: Seq<char>) -> Seq<char> {
    seq!['"'] + json_escaped(s) + seq!['"']
}

/// The JSON array elements for a URL list, comma-separated.
pub open spec fn url_list_json(urls: Seq<Seq<char>>) -> Seq<char>
    decreases urls.len(),
{
    if urls.len() == 0 {
        Seq::empty()
    } else if urls.len() == 1 {
        json_string(urls[0])
    } else {
        url_list_json(urls.drop_last()) + seq![','] + json_string(urls.last())
    }
}

/// The bulk request body: `{"host":H,"key":K,"urlList":[...]}`.
pub open spec fn bulk_body_spec(host: Seq<char>, key: Seq<char>, urls: Seq<Seq<char>>) -> Seq<
    char,
> {
    "{\"host\":"@ + json_string(host) + ",\"key\":"@ + json_string(key) + ",\"urlList\":["@
        + url_list_json(urls) + "]}"@
}

/// The single-URL request: a GET against the notification endpoint with
/// the URL and credential as query parameters.
pub open spec fn single_url_spec(engine: Seq<char>, key: Seq<char>, url: Seq<char>) -> Seq<
    char,
> {
    "https://"@ + engine + "/indexnow?url="@ + url_encoded(url) + "&key="@ + key
}

/// The bulk endpoint the POST goes to.
pub open spec fn endpoint_spec(engine: Seq<char>) -> Seq<char> {
    "https://"@ + engine + "/indexnow"@
}

/// Appends the hex digit.
fn push_hex_lower(out: &mut String, n: u32)
    requires
        n < 16,
    ensures
        final(out)@ == old(out)@.push(hex_lower(n as int)),
{
    let c: char = if n < 10 {
        (48u8 + (n as u8)) as char
    } else {
        (97u8 + ((n as u8) - 10)) as char
    };
    push_char(out, c);
}

/// Appends the JSON-escaped form of `s`.
fn append_json_escaped(out: &mut String, s: &str)
    ensures
        final(out)@ == old(out)@ + json_escaped(s@),
{
    let n = s.unicode_len();
    let mut i: usize = 0;
    proof {
        assert(s@.take(0) =~= Seq::<char>::empty());
        assert(old(out)@ + json_escaped(s@.take(0)) =~= old(out)@);
    }
    while i < n
        invariant
            n == s@.len(),
            i <= n,
            out@ == old(out)@ + json_escaped(s@.take(i as int)),
        decreases n - i,
    {
        let ghost pre = out@;
        let c = s.get_char(i);
        if c == '"' {
            push_char(out, '\\');
            push_char(out, '"');
        } else if c == '\\' {
            push_char(out, '\\');
            push_char(out, '\\');
        } else if (c as u32) < 32 {
            push_char(out, '\\');
            push_char(out, 'u');
            push_char(out, '0');
            push_char(out, '0');
            push_hex_lower(out, (c as u32) / 16);
            push_hex_lower(out, (c as u32) % 16);
        } else {
            push_char(out, c);
        }
        proof {
            assert(out@ =~= pre + json_escaped_char(s@[i as int]));
            assert(s@.take(i + 1).drop_last() =~= s@.take(i as int));
            assert(s@.take(i + 1).last() == s@[i as int]);
            assert(out@ =~= old(out)@ + json_escaped(s@.take(i + 1)));
        }
        i += 1;
    }
    proof {
        assert(s@.take(n as int) =~= s@);
    }
}

/// Appends the JSON string literal denoting `s`.
fn append_json_string(out: &mut String, s: &str)
    ensures
        final(out)@ == old(out)@ + json_string(s@),
{
    push_char(out, '"');
    append_json_escaped(out, s);
    push_char(out, '"');
    proof {
        assert(out@ =~= old(out)@ + json_string(s@));
    }
}

/// Builds the bulk request body for a batch.
pub fn bulk_request_body(host: &str, key: &str, batch: &Vec<SubmitEntry>) -> (r: String)
    ensures
        r@ == bulk_body_spec(host@, key@, submit_urls(batch.deep_view())),
{
    let ghost urls = submit_urls(batch.deep_view());
    let mut out = "{\"host\":".to_owned();
    append_json_string(&mut out, host);
    out.append(",\"key\":");
    append_json_string(&mut out, key);
    out.append(",\"urlList\":[");
    let ghost head = "{\"host\":"@ + json_string(host@) + ",\"key\":"@ + json_string(key@)
        + ",\"urlList\":["@;
    proof {
        assert(out@ =~= head);
        assert(out@ =~= head + url_list_json(urls.take(0)));
    }
    let n = batch.len();
    let mut i: usize = 0;
    while i < n
        invariant
            n == batch.deep_view().len(),
            urls == submit_urls(batch.deep_view()),
            urls.len() == n,
            i <= n,
            head == "{\"host\":"@ + json_string(host@) + ",\"key\":"@ + json_string(key@)
                + ",\"urlList\":["@,
            out@ == head + url_list_json(urls.take(i as int)),
        decreases n - i,
    {
        let ghost pre = out@;
        if i > 0 {
            push_char(&mut out, ',');
            append_json_string(&mut out, batch[i].url.as_str());
            proof {
                assert(urls[i as int] == batch.deep_view()[i as int].url);
                assert(out@ =~= pre + seq![','] + json_string(urls[i as int]));
                assert(urls.take(i + 1).drop_last() =~= urls.take(i as int));
                assert(urls.take(i + 1).last() == urls[i as int]);
                assert(out@ =~= head + url_list_json(urls.take(i + 1)));
            }
        } else {
            append_json_string(&mut out, batch[i].url.as_str());
            proof {
                assert(urls[0] == batch.deep_view()[0].url);
                assert(urls.take(1).len() == 1);
                assert(urls.take(1)[0] == urls[0]);
                assert(out@ =~= head + url_list_json(urls.take(1)));
            }
        }
        i += 1;
    }
    out.append("]}");
    proof {
        assert(urls.take(n as int) =~= urls);
        assert(out@ =~= bulk_body_spec(host@, key@, urls));
    }
    out
}

/// Builds the single-URL request line for a one-entry batch.
pub fn single_request_url(engine: &str, key: &str, entry: &SubmitEntry) -> (r: String)
    ensures
        r@ == single_url_spec(engine@, key@, entry@.url),
{
    let mut out = "https://".to_owned();
    out.append(engine);
    out.append("/indexnow?url=");
    let enc = percent_encode(entry.url.as_str());
    out.append(enc.as_str());
    out.append("&key=");
    out.append(key);
    proof {
        assert(out@ =~= single_url_spec(engine@, key@, entry@.url));
    }
    out
}

/// The notification endpoint for bulk requests.
pub fn endpoint_url(engine: &str) -> (r: String)
    ensures
        r@ == endpoint_spec(engine@),
{
    let mut out = "https://".to_owned();
    out.append(engine);
    out.append("/indexnow");
    proof {
        assert(out@ =~= endpoint_spec(engine@));
    }
    out
}

/// One of the two wire shapes of a submission call.
pub enum WireRequest {
    /// A one-entry batch: GET with `url` and `key` query parameters.
    SingleGet { url: String },
    /// A multi-entry batch: POST of a JSON body to the endpoint.
    BulkPost { url: String, body: String },
}

/// The wire request a batch is sent as: the single-URL GET shape for a
/// batch of exactly one entry, the bulk POST shape otherwise.
pub fn request_for_batch(engine: &str, key: &str, host: &str, batch: &Vec<SubmitEntry>) -> (r:
    WireRequest)
    requires
        batch@.len() >= 1,
    ensures
        batch@.len() == 1 ==> (r matches WireRequest::SingleGet { url } && url@
            == single_url_spec(engine@, key@, batch.deep_view()[0].url)),
        batch@.len() > 1 ==> (r matches WireRequest::BulkPost { url, body } && url@
            == endpoint_spec(engine@) && body@ == bulk_body_spec(
            host@,
            key@,
            submit_urls(batch.deep_view()),
        )),
{
    if batch.len() == 1 {
        WireRequest::SingleGet { url: single_request_url(engine, key, &batch[0]) }
    } else {
        WireRequest::BulkPost {
            url: endpoint_url(engine),
            body: bulk_request_body(host, key, batch),
        }
    }
}

} // verus!

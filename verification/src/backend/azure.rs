//! Rules of the Azure page-blob backend: which errors are retried and when, how
//! `Get Page Ranges` bodies are read, how a server-side copy is cut into requests,
//! and what the replies of the storage service mean.

use vstd::prelude::*;

use crate::backend;
use crate::backend::BackendError;
use crate::coordination::LockError;
use crate::csi;
use crate::text;

verus! {

// ── Retries ─────────────────────────────────────────────────────────────────

/// Maximum attempts (initial try and retries) for a single page-blob operation
/// before the error is surfaced to the block layer.
pub const AZURE_OP_ATTEMPTS: u32 = 5;

/// Backoff before the first retry, in milliseconds; doubles each attempt up to
/// [`AZURE_RETRY_MAX_MS`].
pub const AZURE_RETRY_BASE_MS: u64 = 200;

/// Upper bound on a single backoff, in milliseconds, without jitter.
pub const AZURE_RETRY_MAX_MS: u64 = 5000;

/// Upper bound on the jitter of a backoff, in milliseconds.
pub const AZURE_JITTER_MS: u64 = 128;

/// Throttling, transient server failures and errors without an HTTP status
/// (transport timeouts, connection resets, name resolution) are worth retrying.
pub open spec fn retryable(status: Option<u16>) -> bool {
    match status {
        Some(c) => c == 408 || c == 429 || 500 <= c <= 599,
        None => true,
    }
}

/// Whether a failure is worth retrying, by its HTTP status if it has one:
/// 408 (Request Timeout), 429 (Too Many Requests), any 5xx and failures without a
/// status are. Deterministic client errors (auth failures, 404, 416 invalid range,
/// precondition) are not.
pub fn is_retryable(status: Option<u16>) -> (r: bool)
    ensures
        r == retryable(status),
{
    match status {
        Some(c) => c == 408 || c == 429 || (500 <= c && c <= 599),
        None => true,
    }
}

/// The backoff after the `n`-th failed attempt, without jitter.
pub open spec fn backoff_ms(n: nat) -> nat
    decreases n,
{
    if n <= 1 {
        AZURE_RETRY_BASE_MS as nat
    } else {
        let d = 2 * backoff_ms((n - 1) as nat);
        if d < AZURE_RETRY_MAX_MS {
            d
        } else {
            AZURE_RETRY_MAX_MS as nat
        }
    }
}

/// The attempts at one idempotent operation.
#[derive(Debug)]
pub struct Retry {
    attempts: u32,
    delay: u64,
}

impl Retry {
    /// How many attempts have failed so far.
    pub closed spec fn failures(&self) -> nat {
        self.attempts as nat
    }

    /// The attempts are in step with the backoff.
    pub closed spec fn wf(&self) -> bool {
        &&& self.attempts < AZURE_OP_ATTEMPTS
        &&& self.delay == backoff_ms(self.attempts as nat + 1)
        &&& AZURE_RETRY_BASE_MS <= self.delay <= AZURE_RETRY_MAX_MS
    }

    /// No attempt has been made.
    pub fn new() -> (r: Self)
        ensures
            r.wf(),
            r.failures() == 0,
    {
        Retry { attempts: 0, delay: AZURE_RETRY_BASE_MS }
    }

    /// An attempt has failed: the milliseconds to wait before the next one, or
    /// nothing when the failure is final, because it is not worth retrying or
    /// because the attempts are used up. `jitter` desynchronises the retries of
    /// many requests; its remainder modulo 128 counts.
    pub fn failed(&mut self, status: Option<u16>, jitter: u64) -> (r: Option<u64>)
        requires
            old(self).wf(),
        ensures
            match r {
                Some(wait) => {
                    &&& retryable(status)
                    &&& old(self).failures() + 1 < AZURE_OP_ATTEMPTS
                    &&& final(self).wf()
                    &&& final(self).failures() == old(self).failures() + 1
                    &&& wait == backoff_ms(old(self).failures() + 1) + jitter % AZURE_JITTER_MS
                },
                None => !retryable(status) || old(self).failures() + 1 >= AZURE_OP_ATTEMPTS,
            },
            old(self).failures() >= 4 ==> r is None,
            old(self).failures() < 4 && (status is None || status == Some(408u16) || status == Some(
                429u16,
            ) || status == Some(503u16)) ==> r is Some,
            status == Some(404u16) || status == Some(403u16) || status == Some(416u16) ==> r is None,
            r matches Some(wait) ==> 200 <= wait <= 5127,
    {
        if self.attempts + 1 >= AZURE_OP_ATTEMPTS || !is_retryable(status) {
            return None;
        }
        let wait: u64 = self.delay + jitter % AZURE_JITTER_MS;
        self.attempts = self.attempts + 1;
        let doubled: u64 = self.delay * 2;
        self.delay = if doubled < AZURE_RETRY_MAX_MS {
            doubled
        } else {
            AZURE_RETRY_MAX_MS
        };
        Some(wait)
    }
}

/// An operation is given up on after five attempts at most, and waits less than
/// four seconds in all before the last one.
pub proof fn retries_are_bounded()
    ensures
        backoff_ms(1) == 200,
        backoff_ms(2) == 400,
        backoff_ms(3) == 800,
        backoff_ms(4) == 1600,
        backoff_ms(1) + backoff_ms(2) + backoff_ms(3) + backoff_ms(4) + 4 * 127 < 4000,
{
    reveal_with_fuel(backoff_ms, 5);
}

// ── Get Page Ranges ─────────────────────────────────────────────────────────

/// What is wrong with a `Get Page Ranges` body.
#[derive(Clone, Copy, Debug, PartialEq, Eq, Structural)]
pub enum PageListError {
    /// A `<PageRange>` without its end.
    Unterminated,
    /// A range without a readable `<Start>`.
    Start,
    /// A range without a readable `<End>`.
    End,
    /// A range that ends before it starts.
    Inverted,
    /// A range of more bytes than 64 bits count.
    TooLong,
}

/// Why an element has no number.
#[derive(Clone, Copy, Debug, PartialEq, Eq, Structural)]
pub enum TagError {
    /// The element or its end is missing.
    Missing,
    /// The element holds no unsigned integer of 64 bits.
    Value,
}

/// What stands between the first `open` and the first `close` after it.
pub open spec fn between(s: Seq<char>, open: Seq<char>, close: Seq<char>) -> Option<Seq<char>> {
    match text::find_text(s, open, 0) {
        None => None,
        Some(i) => {
            let rest = s.skip(i + open.len());
            match text::find_text(rest, close, 0) {
                None => None,
                Some(j) => Some(rest.take(j)),
            }
        },
    }
}

/// The value of a numeric element.
pub open spec fn tag_number(s: Seq<char>, tag: Seq<char>) -> Option<nat> {
    match between(s, "<"@ + tag + ">"@, "</"@ + tag + ">"@) {
        Some(v) => text::number(text::trim(v), u64::MAX as nat),
        None => None,
    }
}

/// The continuation token of a body.
pub open spec fn next_marker(body: Seq<char>) -> Option<Seq<char>> {
    match between(body, "<NextMarker>"@, "</NextMarker>"@) {
        Some(v) => if text::trim(v).len() > 0 {
            Some(text::trim(v))
        } else {
            None
        },
        None => None,
    }
}

/// One range: from `Start` to `End`, both included.
pub open spec fn page_range(segment: Seq<char>) -> Result<(u64, u64), PageListError> {
    match (tag_number(segment, "Start"@), tag_number(segment, "End"@)) {
        (None, _) => Err(PageListError::Start),
        (_, None) => Err(PageListError::End),
        (Some(a), Some(b)) => if b < a {
            Err(PageListError::Inverted)
        } else if b - a >= u64::MAX {
            Err(PageListError::TooLong)
        } else {
            Ok((a as u64, (b - a + 1) as u64))
        },
    }
}

/// The ranges of a body, in the order in which they stand there.
pub open spec fn listed_ranges(body: Seq<char>) -> Result<Seq<(u64, u64)>, PageListError>
    decreases body.len(),
{
    match text::find_text(body, "<PageRange>"@, 0) {
        None => Ok(Seq::empty()),
        Some(i) => {
            let after = body.skip(i + "<PageRange>"@.len());
            match text::find_text(after, "</PageRange>"@, 0) {
                None => Err(PageListError::Unterminated),
                Some(j) => match page_range(after.take(j)) {
                    Err(e) => Err(e),
                    Ok(range) => {
                        let rest = after.skip(j + "</PageRange>"@.len());
                        if rest.len() < body.len() {
                            match listed_ranges(rest) {
                                Err(e) => Err(e),
                                Ok(more) => Ok(seq![range] + more),
                            }
                        } else {
                            Ok(seq![range])
                        }
                    },
                },
            }
        },
    }
}

/// How many of the first `n` ranges stay in front of a new one starting at `start`.
pub open spec fn rank(s: Seq<(u64, u64)>, start: u64, n: int) -> int
    decreases n,
{
    if n <= 0 || s[n - 1].0 <= start {
        n
    } else {
        rank(s, start, n - 1)
    }
}

/// The ranges in the order of their offsets; ranges of one offset keep their order.
pub open spec fn by_offset(s: Seq<(u64, u64)>) -> Seq<(u64, u64)>
    decreases s.len(),
{
    if s.len() == 0 {
        Seq::empty()
    } else {
        let front = by_offset(s.drop_last());
        front.insert(rank(front, s.last().0, front.len() as int), s.last())
    }
}

proof fn lemma_rank(s: Seq<(u64, u64)>, start: u64, n: int)
    requires
        0 <= n <= s.len(),
    ensures
        0 <= rank(s, start, n) <= n,
        rank(s, start, n) > 0 ==> s[rank(s, start, n) - 1].0 <= start,
        forall|i: int| rank(s, start, n) <= i < n ==> start < #[trigger] s[i].0,
    decreases n,
{
    if n > 0 && s[n - 1].0 > start {
        lemma_rank(s, start, n - 1);
    }
}

/// Sorting keeps the ranges and orders them by offset.
pub proof fn by_offset_is_sorted(s: Seq<(u64, u64)>)
    ensures
        by_offset(s).to_multiset() == s.to_multiset(),
        by_offset(s).len() == s.len(),
        forall|i: int, j: int|
            0 <= i < j < s.len() ==> (#[trigger] by_offset(s)[i]).0 <= (
            #[trigger] by_offset(s)[j]).0,
    decreases s.len(),
{
    broadcast use vstd::seq_lib::group_to_multiset_ensures;

    if s.len() > 0 {
        let front = by_offset(s.drop_last());
        by_offset_is_sorted(s.drop_last());
        let p = s.last();
        let k = rank(front, p.0, front.len() as int);
        lemma_rank(front, p.0, front.len() as int);
        assert(s == s.drop_last().push(p));
        assert(front.insert(k, p).to_multiset() == front.to_multiset().insert(p));
        assert(s.drop_last().push(p).to_multiset() == s.drop_last().to_multiset().insert(p));
        let all = by_offset(s);
        assert forall|i: int, j: int| 0 <= i < j < s.len() implies (#[trigger] all[i]).0 <= (
        #[trigger] all[j]).0 by {
            let a = if i < k {
                i
            } else {
                i - 1
            };
            let b = if j < k {
                j
            } else {
                j - 1
            };
            if i != k && j != k {
                assert(all[i] == front[a] && all[j] == front[b]);
            } else if j == k {
                assert(all[i] == front[i]);
                assert(front[i].0 <= front[k - 1].0);
            } else {
                assert(all[j] == front[j - 1]);
            }
        }
    } else {
        assert(by_offset(s) == s);
    }
}

fn insert_by_offset(v: &mut Vec<(u64, u64)>, range: (u64, u64))
    ensures
        final(v)@ == old(v)@.insert(
            rank(old(v)@, range.0, old(v)@.len() as int),
            range,
        ),
{
    let ghost s = v@;
    let mut k: usize = v.len();
    while k > 0 && v[k - 1].0 > range.0
        invariant
            k <= v@.len(),
            s == v@,
            rank(s, range.0, v@.len() as int) == rank(s, range.0, k as int),
        decreases k,
    {
        k = k - 1;
    }
    v.insert(k, range);
}

/// Ranges in the order of their offsets.
pub fn sort_ranges(ranges: &Vec<(u64, u64)>) -> (r: Vec<(u64, u64)>)
    ensures
        r@ == by_offset(ranges@),
{
    let mut r: Vec<(u64, u64)> = Vec::new();
    let mut i: usize = 0;
    assert(r@ == by_offset(ranges@.take(0)));
    while i < ranges.len()
        invariant
            i <= ranges@.len(),
            r@ == by_offset(ranges@.take(i as int)),
        decreases ranges@.len() - i,
    {
        insert_by_offset(&mut r, ranges[i]);
        proof {
            assert(ranges@.take(i + 1).drop_last() == ranges@.take(i as int));
            assert(ranges@.take(i + 1).last() == ranges@[i as int]);
        }
        i = i + 1;
    }
    assert(ranges@.take(ranges@.len() as int) == ranges@);
    r
}

fn text_between(s: &str, open: &str, close: &str) -> (r: Option<String>)
    ensures
        text::opt_view(r) == between(s@, open@, close@),
{
    let v = text::chars_of(s);
    let o = text::chars_of(open);
    proof {
        text::lemma_find_text(s@, open@, 0);
    }
    match text::find_text_at(&v, &o, 0) {
        None => None,
        Some(i) => {
            assert(v.len() == s@.len());
            let rest = text::slice_of(&v, i + o.len(), v.len());
            assert(rest@ == s@.skip(i + open@.len()));
            let w = text::chars_of(rest.as_str());
            proof {
                text::lemma_find_text(rest@, close@, 0);
            }
            match text::find_text_at(&w, &text::chars_of(close), 0) {
                None => None,
                Some(j) => {
                    let r = text::slice_of(&w, 0, j);
                    assert(r@ == rest@.take(j as int));
                    Some(r)
                },
            }
        },
    }
}

/// The unsigned integer value of `<tag>NNN</tag>` in `segment`.
pub fn extract_tag_u64(segment: &str, tag: &str) -> (r: Result<u64, TagError>)
    ensures
        match r {
            Ok(n) => tag_number(segment@, tag@) == Some(n as nat),
            Err(e) => tag_number(segment@, tag@) is None && e is Missing == (between(
                segment@,
                "<"@ + tag@ + ">"@,
                "</"@ + tag@ + ">"@,
            ) is None),
        },
{
    let open = text::concat3("<", tag, ">");
    let close = text::concat3("</", tag, ">");
    match text_between(segment, open.as_str(), close.as_str()) {
        Some(v) => match text::parse_u64(text::trimmed(v.as_str()).as_str()) {
            Some(n) => Ok(n),
            None => Err(TagError::Value),
        },
        None => Err(TagError::Missing),
    }
}

/// The non-empty `<NextMarker>` continuation token of a `Get Page Ranges` body, if
/// there is one (an empty one means the last page).
pub fn parse_next_marker(body: &str) -> (r: Option<String>)
    ensures
        text::opt_view(r) == next_marker(body@),
{
    match text_between(body, "<NextMarker>", "</NextMarker>") {
        Some(v) => {
            let t = text::trimmed(v.as_str());
            if t.as_str().is_empty() {
                None
            } else {
                Some(t)
            }
        },
        None => None,
    }
}

fn parse_range(segment: &str) -> (r: Result<(u64, u64), PageListError>)
    ensures
        r == page_range(segment@),
{
    let start: u64 = match extract_tag_u64(segment, "Start") {
        Ok(n) => n,
        Err(_) => {
            return Err(PageListError::Start);
        },
    };
    let end: u64 = match extract_tag_u64(segment, "End") {
        Ok(n) => n,
        Err(_) => {
            return Err(PageListError::End);
        },
    };
    if end < start {
        return Err(PageListError::Inverted);
    }
    if end - start == u64::MAX {
        return Err(PageListError::TooLong);
    }
    Ok((start, end - start + 1))
}

/// A result over the sequence that a vector holds.
pub open spec fn ranges_result(r: Result<Vec<(u64, u64)>, PageListError>) -> Result<
    Seq<(u64, u64)>,
    PageListError,
> {
    match r {
        Ok(v) => Ok(v@),
        Err(e) => Err(e),
    }
}

fn list_ranges(body: &str) -> (r: Result<Vec<(u64, u64)>, PageListError>)
    ensures
        ranges_result(r) == listed_ranges(body@),
{
    let open = text::chars_of("<PageRange>");
    let close = text::chars_of("</PageRange>");
    proof {
        reveal_strlit("<PageRange>");
        reveal_strlit("</PageRange>");
    }
    let mut out: Vec<(u64, u64)> = Vec::new();
    let mut rest = text::chars_of(body);
    assert(listed_ranges(body@) == listed_ranges(rest@));
    loop
        invariant
            open@ == "<PageRange>"@,
            close@ == "</PageRange>"@,
            open@.len() == 11,
            close@.len() == 12,
            match listed_ranges(rest@) {
                Ok(more) => listed_ranges(body@) == Ok::<_, PageListError>(out@ + more),
                Err(e) => listed_ranges(body@) == Err::<Seq<(u64, u64)>, _>(e),
            },
        decreases rest@.len(),
    {
        proof {
            text::lemma_find_text(rest@, "<PageRange>"@, 0);
        }
        match text::find_text_at(&rest, &open, 0) {
            None => {
                assert(out@ + Seq::<(u64, u64)>::empty() == out@);
                return Ok(out);
            },
            Some(i) => {
                assert(rest.len() == rest@.len());
                let after_text = text::slice_of(&rest, i + 11, rest.len());
                let after = text::chars_of(after_text.as_str());
                assert(after@ == rest@.skip(i + 11));
                proof {
                    text::lemma_find_text(after@, "</PageRange>"@, 0);
                }
                match text::find_text_at(&after, &close, 0) {
                    None => {
                        return Err(PageListError::Unterminated);
                    },
                    Some(j) => {
                        assert(after.len() == after@.len());
                        let segment = text::slice_of(&after, 0, j);
                        assert(segment@ == after@.take(j as int));
                        match parse_range(segment.as_str()) {
                            Err(e) => {
                                return Err(e);
                            },
                            Ok(range) => {
                                let ghost had = out@;
                                out.push(range);
                                let next_text = text::slice_of(&after, j + 12, after.len());
                                let next = text::chars_of(next_text.as_str());
                                proof {
                                    assert(next@ == after@.skip(j + 12));
                                    assert(next@.len() < rest@.len());
                                    match listed_ranges(next@) {
                                        Ok(more) => {
                                            assert(had + (seq![range] + more) == out@ + more);
                                        },
                                        Err(_) => {},
                                    }
                                }
                                rest = next;
                            },
                        }
                    },
                }
            },
        }
    }
}

/// Parse a `Get Page Ranges` XML body into `(offset, len)` data ranges, sorted by
/// offset.
///
/// `Start` and `End` are **inclusive** byte offsets. `ClearRange` elements are
/// ignored.
pub fn parse_page_ranges(body: &str) -> (r: Result<Vec<(u64, u64)>, PageListError>)
    ensures
        ranges_result(r) == (match listed_ranges(body@) {
            Ok(s) => Ok(by_offset(s)),
            Err(e) => Err(e),
        }),
{
    match list_ranges(body) {
        Ok(v) => Ok(sort_ranges(&v)),
        Err(e) => Err(e),
    }
}

/// The query of one `Get Page Ranges` request.
pub fn page_list_query(snapshot: &Option<String>, marker: &Option<String>) -> (r: Vec<
    (String, String),
>)
    ensures
        crate::table::pairs(r@) == (seq![("comp"@, "pagelist"@)] + (match text::opt_view(*snapshot) {
            Some(s) => seq![("snapshot"@, s)],
            None => Seq::empty(),
        }) + (match text::opt_view(*marker) {
            Some(m) => seq![("marker"@, m)],
            None => Seq::empty(),
        })),
{
    let mut r: Vec<(String, String)> = Vec::new();
    r.push(("comp".to_owned(), "pagelist".to_owned()));
    if let Some(s) = snapshot {
        r.push(("snapshot".to_owned(), s.clone()));
    }
    if let Some(m) = marker {
        r.push(("marker".to_owned(), m.clone()));
    }
    assert(crate::table::pairs(r@) =~= (seq![("comp"@, "pagelist"@)] + (match text::opt_view(
        *snapshot,
    ) {
        Some(s) => seq![("snapshot"@, s)],
        None => Seq::empty(),
    }) + (match text::opt_view(*marker) {
        Some(m) => seq![("marker"@, m)],
        None => Seq::empty(),
    })));
    r
}

/// The pages of a `Get Page Ranges` listing that have arrived.
#[derive(Debug)]
pub struct PageListing {
    ranges: Vec<(u64, u64)>,
}

impl PageListing {
    /// The ranges that have arrived, in order.
    pub closed spec fn arrived(&self) -> Seq<(u64, u64)> {
        self.ranges@
    }

    /// Nothing has arrived.
    pub fn new() -> (r: Self)
        ensures
            r.arrived() == Seq::<(u64, u64)>::empty(),
    {
        PageListing { ranges: Vec::new() }
    }

    /// Take one page, and say where the next one continues; nothing after the
    /// last page. A page that cannot be read changes nothing.
    pub fn page(&mut self, body: &str) -> (r: Result<Option<String>, PageListError>)
        ensures
            match listed_ranges(body@) {
                Ok(s) => {
                    &&& final(self).arrived() == old(self).arrived() + by_offset(s)
                    &&& r matches Ok(m) && text::opt_view(m) == next_marker(body@)
                },
                Err(e) => r == Err::<Option<String>, _>(e) && final(self).arrived()
                    == old(self).arrived(),
            },
    {
        match parse_page_ranges(body) {
            Err(e) => Err(e),
            Ok(batch) => {
                let ghost had = self.ranges@;
                let mut i: usize = 0;
                assert(had + batch@.take(0) == had);
                while i < batch.len()
                    invariant
                        i <= batch@.len(),
                        self.ranges@ == had + batch@.take(i as int),
                    decreases batch@.len() - i,
                {
                    self.ranges.push(batch[i]);
                    assert(self.ranges@ =~= had + batch@.take(i + 1));
                    i = i + 1;
                }
                assert(batch@.take(batch@.len() as int) == batch@);
                Ok(parse_next_marker(body))
            },
        }
    }

    /// All ranges, sorted by offset.
    pub fn finish(self) -> (r: Vec<(u64, u64)>)
        ensures
            r@ == by_offset(self.arrived()),
    {
        sort_ranges(&self.ranges)
    }
}

// ── Server-side copy ────────────────────────────────────────────────────────

/// The copy-source token is minted anew roughly every this many bytes (8 GiB).
pub const BATCH_BYTES: u64 = 8589934592;

/// One request of a server-side copy: `Put Page From URL` of a range, or
/// `Clear Pages` where the source has only zeros.
#[derive(Clone, Copy, Debug, PartialEq, Eq, Structural)]
pub struct CopyStep {
    pub offset: u64,
    pub len: u64,
    pub copy: bool,
}

/// How many chunks cover `total` bytes.
pub open spec fn chunk_count(total: int, chunk: int) -> int {
    (total + chunk - 1) / chunk
}

/// The `i`-th request of a copy.
pub open spec fn copy_step(
    total: u64,
    chunk: u64,
    ranges: Option<Seq<(u64, u64)>>,
    i: int,
) -> CopyStep {
    let offset = i * chunk;
    let len = csi::chunk_len(offset, chunk as int, total as int);
    CopyStep {
        offset: offset as u64,
        len: len as u64,
        copy: match ranges {
            Some(r) => backend::intersects(r, offset, len),
            None => true,
        },
    }
}

/// The requests of a copy, in order.
pub open spec fn copy_steps(total: u64, chunk: u64, ranges: Option<Seq<(u64, u64)>>) -> Seq<
    CopyStep,
> {
    Seq::new(
        chunk_count(total as int, chunk as int) as nat,
        |i: int| copy_step(total, chunk, ranges, i),
    )
}

proof fn lemma_chunks(total: int, chunk: int, i: int)
    requires
        0 < chunk,
        0 <= total,
        0 <= i,
    ensures
        chunk_count(total, chunk) >= 0,
        i < chunk_count(total, chunk) <==> i * chunk < total,
        0 <= i * chunk,
{
    let n = chunk_count(total, chunk);
    vstd::arithmetic::div_mod::lemma_fundamental_div_mod(total + chunk - 1, chunk);
    vstd::arithmetic::div_mod::lemma_mod_bound(total + chunk - 1, chunk);
    vstd::arithmetic::div_mod::lemma_div_pos_is_pos(total + chunk - 1, chunk);
    assert(n * chunk == chunk * n) by (nonlinear_arith);
    assert(total <= n * chunk < total + chunk);
    if i < n {
        assert((i + 1) * chunk <= n * chunk) by (nonlinear_arith)
            requires
                i + 1 <= n,
                chunk > 0,
        ;
        assert((i + 1) * chunk == i * chunk + chunk) by (nonlinear_arith);
    } else {
        assert(n * chunk <= i * chunk) by (nonlinear_arith)
            requires
                n <= i,
                chunk > 0,
        ;
    }
    assert(0 <= i * chunk) by (nonlinear_arith)
        requires
            0 <= i,
            0 < chunk,
    ;
}

/// Cut a server-side copy of `total_size` bytes into requests of `chunk` bytes.
///
/// Chunks that lie entirely in a zero gap of the source are cleared on the
/// destination instead of being copied. The copy must be 512-byte aligned.
pub fn plan_copy(total_size: u64, chunk: u64, ranges: Option<&Vec<(u64, u64)>>) -> (r: Result<
    Vec<CopyStep>,
    BackendError,
>)
    requires
        chunk > 0,
    ensures
        if total_size % 512 != 0 {
            r matches Err(BackendError::Misaligned { name, value, align }) && name@ == "copy size"@
                && value == total_size && align == 512
        } else {
            r matches Ok(v) && v@ == copy_steps(total_size, chunk, csi::ranges_view(ranges))
        },
{
    match backend::check_alignment(total_size, 512, "copy size") {
        Ok(()) => {},
        Err(e) => {
            return Err(e);
        },
    }
    let ghost view = csi::ranges_view(ranges);
    let mut out: Vec<CopyStep> = Vec::new();
    let mut offset: u64 = 0;
    let ghost mut i: int = 0;
    proof {
        lemma_chunks(total_size as int, chunk as int, 0);
    }
    while offset < total_size
        invariant
            chunk > 0,
            0 <= i,
            view == csi::ranges_view(ranges),
            offset <= total_size,
            offset < total_size ==> offset == i * chunk,
            offset == total_size ==> i == chunk_count(total_size as int, chunk as int),
            out@.len() == i,
            i <= chunk_count(total_size as int, chunk as int),
            forall|k: int|
                0 <= k < i ==> #[trigger] out@[k] == copy_step(total_size, chunk, view, k),
        decreases total_size - offset,
    {
        let len: u64 = if chunk < total_size - offset {
            chunk
        } else {
            total_size - offset
        };
        let copy = match ranges {
            Some(r) => backend::range_intersects(r, offset, len),
            None => true,
        };
        out.push(CopyStep { offset, len, copy });
        proof {
            lemma_chunks(total_size as int, chunk as int, i);
            lemma_chunks(total_size as int, chunk as int, i + 1);
            assert((i + 1) * chunk == i * chunk + chunk) by (nonlinear_arith);
            assert(out@[i] == copy_step(total_size, chunk, view, i));
            i = i + 1;
        }
        offset = offset + len;
    }
    assert(out@ =~= copy_steps(total_size, chunk, view));
    Ok(out)
}

/// How many requests are made under one copy-source token.
pub fn chunks_per_batch(chunk: u64, pipeline_depth: u64) -> (r: u64)
    requires
        chunk > 0,
    ensures
        r == (if BATCH_BYTES / chunk < pipeline_depth {
            pipeline_depth
        } else {
            BATCH_BYTES / chunk
        }),
{
    let n: u64 = BATCH_BYTES / chunk;
    if n < pipeline_depth {
        pipeline_depth
    } else {
        n
    }
}

/// How many copy requests are kept in flight: the operator's setting if it is a
/// positive number, otherwise the number of processors.
pub fn copy_concurrency(setting: Option<&str>, cpus: u64) -> (r: u64)
    ensures
        r == (match setting {
            Some(s) => match text::number(s@, u64::MAX as nat) {
                Some(n) => if n > 0 {
                    n as int
                } else {
                    cpus as int
                },
                None => cpus as int,
            },
            None => cpus as int,
        }),
{
    match setting {
        Some(s) => match text::parse_u64(s) {
            Some(n) => if n > 0 {
                n
            } else {
                cpus
            },
            None => cpus,
        },
        None => cpus,
    }
}

/// The destination after the first `n` requests of a copy.
pub open spec fn after_steps(dest: Seq<u8>, source: Seq<u8>, steps: Seq<CopyStep>, n: int) -> Seq<u8>
    decreases n,
{
    if n <= 0 || n > steps.len() {
        dest
    } else {
        let s = steps[n - 1];
        backend::splice(
            after_steps(dest, source, steps, n - 1),
            s.offset as int,
            if s.copy {
                source.subrange(s.offset as int, s.offset + s.len)
            } else {
                backend::zeros(s.len as nat)
            },
        )
    }
}

/// A server-side copy leaves in the destination exactly what a streamed copy of
/// the same source leaves there.
pub proof fn a_server_side_copy_is_a_streamed_copy(
    dest: Seq<u8>,
    source: Seq<u8>,
    total: u64,
    chunk: u64,
    ranges: Option<Seq<(u64, u64)>>,
)
    requires
        chunk > 0,
        total <= dest.len(),
        total <= source.len(),
    ensures
        after_steps(
            dest,
            source,
            copy_steps(total, chunk, ranges),
            chunk_count(total as int, chunk as int),
        ) == csi::copy_of(dest, source, ranges, chunk as int, total as int, total as int),
{
    let n = chunk_count(total as int, chunk as int);
    lemma_chunks(total as int, chunk as int, 0);
    lemma_after_steps(dest, source, total, chunk, ranges, n);
    lemma_chunks(total as int, chunk as int, n);
    assert(copied_upto(total as int, chunk as int, n) == total);
}

/// How far the first `n` requests reach.
pub open spec fn copied_upto(total: int, chunk: int, n: int) -> int {
    if n * chunk < total {
        n * chunk
    } else {
        total
    }
}

proof fn lemma_after_steps(
    dest: Seq<u8>,
    source: Seq<u8>,
    total: u64,
    chunk: u64,
    ranges: Option<Seq<(u64, u64)>>,
    n: int,
)
    requires
        chunk > 0,
        total <= dest.len(),
        total <= source.len(),
        0 <= n <= chunk_count(total as int, chunk as int),
    ensures
        after_steps(dest, source, copy_steps(total, chunk, ranges), n) == csi::copy_of(
            dest,
            source,
            ranges,
            chunk as int,
            total as int,
            copied_upto(total as int, chunk as int, n),
        ),
    decreases n,
{
    let steps = copy_steps(total, chunk, ranges);
    let c = chunk as int;
    let t = total as int;
    let want = csi::copy_of(dest, source, ranges, c, t, copied_upto(t, c, n));
    if n == 0 {
        assert(0 * c == 0) by (nonlinear_arith);
        assert(want =~= dest);
    } else {
        lemma_after_steps(dest, source, total, chunk, ranges, n - 1);
        lemma_chunks(t, c, n - 1);
        lemma_chunks(t, c, n);
        let before = after_steps(dest, source, steps, n - 1);
        let at = (n - 1) * c;
        assert(n * c == at + c) by (nonlinear_arith)
            requires
                at == (n - 1) * c,
        ;
        let s = steps[n - 1];
        assert(s == copy_step(total, chunk, ranges, n - 1));
        let len = csi::chunk_len(at, c, t);
        assert(s.offset == at && s.len == len);
        assert(at + len == copied_upto(t, c, n));
        assert(copied_upto(t, c, n - 1) == at);
        let got = after_steps(dest, source, steps, n);
        assert forall|i: int| 0 <= i < dest.len() implies #[trigger] got[i] == want[i] by {
            if at <= i < at + len {
                assert(csi::chunk_start(i, c) == at) by {
                    vstd::arithmetic::div_mod::lemma_fundamental_div_mod_converse(
                        i,
                        c,
                        n - 1,
                        i - at,
                    );
                }
                assert(csi::copied(ranges, i, c, t) == s.copy);
            }
        }
        assert(got =~= want);
    }
}

// ── Replies of the service ──────────────────────────────────────────────────

/// What to do about a blob that is to be created.
#[derive(Clone, Copy, Debug, PartialEq, Eq, Structural)]
pub enum CreateNext {
    /// It is there, with the requested size.
    Done,
    /// It is not there: provision it.
    Provision,
    /// It is there with another size.
    Differs { existing: u64 },
    /// The service could not say.
    Unknown,
}

/// Check a creation before the service is asked.
pub fn check_create(snapshot: bool, size: u64) -> (r: Result<(), BackendError>)
    ensures
        if snapshot {
            r == Err::<(), _>(BackendError::ReadOnly)
        } else if size == 0 {
            r == Err::<(), _>(BackendError::EmptySize)
        } else if size % 512 != 0 {
            r matches Err(BackendError::Misaligned { name, value, align }) && name@ == "size"@
                && value == size && align == 512
        } else {
            r is Ok
        },
{
    if snapshot {
        return Err(BackendError::ReadOnly);
    }
    if size == 0 {
        return Err(BackendError::EmptySize);
    }
    backend::check_alignment(size, 512, "size")
}

/// Whether the container is there after an attempt to create it: a conflict means
/// that it already was.
pub fn container_ready(created: bool, status: Option<u16>) -> (r: bool)
    ensures
        r == (created || status == Some(409u16)),
{
    created || match status {
        Some(c) => c == 409,
        None => false,
    }
}

/// Decide about a creation from what the service says of the blob: its size, or
/// the status of the failed question. Creation never changes an existing blob.
pub fn create_next(existing: Result<u64, Option<u16>>, size: u64) -> (r: CreateNext)
    ensures
        r == (match existing {
            Ok(n) => if n == size {
                CreateNext::Done
            } else {
                CreateNext::Differs { existing: n }
            },
            Err(status) => if status == Some(404u16) {
                CreateNext::Provision
            } else {
                CreateNext::Unknown
            },
        }),
{
    match existing {
        Ok(n) => if n == size {
            CreateNext::Done
        } else {
            CreateNext::Differs { existing: n }
        },
        Err(status) => match status {
            Some(c) => if c == 404 {
                CreateNext::Provision
            } else {
                CreateNext::Unknown
            },
            None => CreateNext::Unknown,
        },
    }
}

/// Whether the blob is gone after an attempt to delete it: one that was not there
/// is gone too.
pub fn deleted(done: bool, status: Option<u16>) -> (r: bool)
    ensures
        r == (done || status == Some(404u16)),
{
    done || match status {
        Some(c) => c == 404,
        None => false,
    }
}

/// Check the range of a read before the service is asked.
pub fn check_read(offset: u64, len: u64) -> (r: Result<(), BackendError>)
    ensures
        match r {
            Ok(()) => offset % 512 == 0 && len % 512 == 0,
            Err(e) => if offset % 512 != 0 {
                e matches BackendError::Misaligned { name, value, align } && name@ == "offset"@
                    && value == offset && align == 512
            } else {
                &&& len % 512 != 0
                &&& e matches BackendError::Misaligned { name, value, align } && name@ == "len"@
                    && value == len && align == 512
            },
        },
{
    match backend::check_alignment(offset, 512, "offset") {
        Ok(()) => backend::check_alignment(len, 512, "len"),
        Err(e) => Err(e),
    }
}

/// Check the range of a write or clear before the service is asked; a snapshot is
/// read-only.
pub fn check_change(snapshot: bool, offset: u64, len: u64) -> (r: Result<(), BackendError>)
    ensures
        match r {
            Ok(()) => !snapshot && offset % 512 == 0 && len % 512 == 0,
            Err(e) => if snapshot {
                e == BackendError::ReadOnly
            } else if offset % 512 != 0 {
                e matches BackendError::Misaligned { name, value, align } && name@ == "offset"@
                    && value == offset && align == 512
            } else {
                &&& len % 512 != 0
                &&& e matches BackendError::Misaligned { name, value, align } && name@ == "len"@
                    && value == len && align == 512
            },
        },
{
    if snapshot {
        return Err(BackendError::ReadOnly);
    }
    check_read(offset, len)
}

/// Classify a failed lease request: a conflict or a failed precondition means that
/// the lease is held.
pub fn classify(status: Option<u16>, what: &str, why: &str) -> (r: LockError)
    ensures
        if status == Some(409u16) || status == Some(412u16) {
            r is Held
        } else {
            r matches LockError::Other(m) && m@ == what@ + ": "@ + why@
        },
{
    match status {
        Some(c) => {
            if c == 409 || c == 412 {
                return LockError::Held;
            }
        },
        None => {},
    }
    LockError::Other(text::concat3(what, ": ", why))
}

// ── What the rules come to ──────────────────────────────────────────────────

/// A failure is retried when the service was busy, failed itself or did not answer;
/// what it refused is not.
pub proof fn only_passing_failures_are_retried(status: u16)
    ensures
        retryable(None),
        status == 408 || status == 429 ==> retryable(Some(status)),
        500 <= status < 600 ==> retryable(Some(status)),
        status < 500 && status != 408 && status != 429 ==> !retryable(Some(status)),
        status >= 600 ==> !retryable(Some(status)),
{
}

/// A backoff begins with a fifth of a second and doubles, up to five seconds.
pub proof fn a_backoff_doubles_up_to_its_limit(n: nat)
    requires
        n >= 1,
    ensures
        backoff_ms(1) == 200,
        2 * backoff_ms(n) < 5000 ==> backoff_ms(n + 1) == 2 * backoff_ms(n),
        2 * backoff_ms(n) >= 5000 ==> backoff_ms(n + 1) == 5000,
        200 <= backoff_ms(n) <= 5000,
    decreases n,
{
    if n > 1 {
        a_backoff_doubles_up_to_its_limit((n - 1) as nat);
    }
}

/// A text that does not begin a tag holds none.
proof fn lemma_no_tag(s: Seq<char>, tag: Seq<char>)
    requires
        !text::has_char(s, '<'),
        tag.len() > 0,
        tag[0] == '<',
    ensures
        text::find_text(s, tag, 0) is None,
{
    text::lemma_free_index(s, '<');
    text::a_search_finds_the_first_occurrence(s, tag, 0);
    if let Some(k) = text::find_text(s, tag, 0) {
        assert(s.subrange(k, k + tag.len())[0] == s[k]);
    }
}

/// Behind a text without a tag, the tag is found where it stands.
proof fn lemma_tag_found(pre: Seq<char>, tag: Seq<char>, post: Seq<char>)
    requires
        !text::has_char(pre, '<'),
        tag.len() > 0,
        tag[0] == '<',
    ensures
        text::find_text(pre + tag + post, tag, 0) == Some(pre.len() as int),
        (pre + tag + post).take(pre.len() as int) == pre,
        (pre + tag + post).skip(pre.len() + tag.len() as int) == post,
{
    let s = pre + tag + post;
    let k = pre.len() as int;
    text::lemma_free_index(pre, '<');
    assert(s.subrange(k, k + tag.len()) =~= tag);
    assert(text::at(s, tag, k));
    text::a_search_finds_the_first_occurrence(s, tag, 0);
    let found = text::find_text(s, tag, 0);
    assert(found is Some);
    let i = found->0;
    if i < k {
        assert(s.subrange(i, i + tag.len())[0] == s[i]);
        assert(s[i] == pre[i]);
        assert(false);
    }
    assert(i == k);
    assert(s.take(k) =~= pre);
    assert(s.skip(k + tag.len()) =~= post);
}

/// What stands between two tags is found there.
pub proof fn an_element_is_found_between_its_tags(
    pre: Seq<char>,
    open: Seq<char>,
    inner: Seq<char>,
    close: Seq<char>,
    post: Seq<char>,
)
    requires
        !text::has_char(pre, '<'),
        !text::has_char(inner, '<'),
        open.len() > 0,
        open[0] == '<',
        close.len() > 0,
        close[0] == '<',
    ensures
        between(pre + open + (inner + close + post), open, close) == Some(inner),
        between(pre, open, close) is None,
        between(pre + open + inner, open, close) is None,
{
    lemma_tag_found(pre, open, inner + close + post);
    lemma_tag_found(inner, close, post);
    lemma_no_tag(pre, open);
    lemma_tag_found(pre, open, inner);
    lemma_no_tag(inner, close);
}

/// The continuation of a listing is what its marker holds; an empty marker, or
/// none, ends the listing.
pub proof fn a_marker_says_where_a_listing_continues(
    pre: Seq<char>,
    marker: Seq<char>,
    post: Seq<char>,
)
    requires
        !text::has_char(pre, '<'),
        !text::has_char(marker, '<'),
        marker.len() > 0,
        text::trim(marker) == marker,
    ensures
        next_marker(pre + "<NextMarker>"@ + (marker + "</NextMarker>"@ + post)) == Some(marker),
        next_marker(pre + "<NextMarker>"@ + (Seq::<char>::empty() + "</NextMarker>"@ + post))
            is None,
        next_marker(pre) is None,
{
    reveal_strlit("<NextMarker>");
    reveal_strlit("</NextMarker>");
    let none = Seq::<char>::empty();
    text::lemma_index_free(none, '<');
    an_element_is_found_between_its_tags(
        pre,
        "<NextMarker>"@,
        marker,
        "</NextMarker>"@,
        post,
    );
    an_element_is_found_between_its_tags(pre, "<NextMarker>"@, none, "</NextMarker>"@, post);
    text::lemma_trim_id(none);
}

/// The range element of a listing, as the service writes it.
pub open spec fn range_element(start: nat, end: nat) -> Seq<char> {
    "<Start>"@ + (text::decimal(start) + "</Start>"@ + ("<End>"@ + (text::decimal(end) + "</End>"@
        + Seq::<char>::empty())))
}

/// A range of a listing includes both its ends.
pub proof fn a_listed_range_includes_both_ends(start: u64, end: u64)
    ensures
        start <= end && end - start < u64::MAX ==> page_range(range_element(start as nat, end as nat))
            == Ok::<(u64, u64), PageListError>((start, (end - start + 1) as u64)),
        start > end ==> page_range(range_element(start as nat, end as nat)) == Err::<(u64, u64), _>(
            PageListError::Inverted,
        ),
        end - start == u64::MAX ==> page_range(range_element(start as nat, end as nat)) == Err::<
            (u64, u64),
            _,
        >(PageListError::TooLong),
{
    reveal_strlit("<");
    reveal_strlit(">");
    reveal_strlit("</");
    reveal_strlit("Start");
    reveal_strlit("End");
    reveal_strlit("<Start>");
    reveal_strlit("</Start>");
    reveal_strlit("<End>");
    reveal_strlit("</End>");
    assert("<"@ + "Start"@ + ">"@ =~= "<Start>"@);
    assert("</"@ + "Start"@ + ">"@ =~= "</Start>"@);
    assert("<"@ + "End"@ + ">"@ =~= "<End>"@);
    assert("</"@ + "End"@ + ">"@ =~= "</End>"@);
    let a = text::decimal(start as nat);
    let b = text::decimal(end as nat);
    let none = Seq::<char>::empty();
    text::lemma_decimal(start as nat);
    text::lemma_decimal(end as nat);
    text::lemma_digits_free(a, '<');
    text::lemma_digits_free(b, '<');
    text::lemma_index_free(none, '<');
    text::number_reads_decimal(start as nat, u64::MAX as nat);
    text::number_reads_decimal(end as nat, u64::MAX as nat);
    lemma_digits_trimmed(a);
    lemma_digits_trimmed(b);
    let last = "<End>"@ + (b + "</End>"@ + none);
    let s = range_element(start as nat, end as nat);
    an_element_is_found_between_its_tags(none, "<Start>"@, a, "</Start>"@, last);
    assert(s =~= none + "<Start>"@ + (a + "</Start>"@ + last));
    assert(tag_number(s, "Start"@) == Some(start as nat));
    lemma_end_found(a, b);
    assert(tag_number(s, "End"@) == Some(end as nat));
}

proof fn lemma_digits_trimmed(s: Seq<char>)
    requires
        s.len() > 0,
        text::all_digits(s),
    ensures
        text::trim(s) == s,
{
    assert(text::is_digit(s[0]));
    assert(text::is_digit(s.last()));
    text::lemma_trim_id(s);
}

proof fn lemma_end_found(a: Seq<char>, b: Seq<char>)
    requires
        !text::has_char(a, '<'),
        !text::has_char(b, '<'),
    ensures
        between(
            "<Start>"@ + (a + "</Start>"@ + ("<End>"@ + (b + "</End>"@ + Seq::<char>::empty()))),
            "<End>"@,
            "</End>"@,
        ) == Some(b),
{
    reveal_strlit("<Start>");
    reveal_strlit("</Start>");
    reveal_strlit("<End>");
    reveal_strlit("</End>");
    let none = Seq::<char>::empty();
    let tail = b + "</End>"@ + none;
    let head = "<Start>"@ + a + "</Start>"@;
    let s = head + "<End>"@ + tail;
    assert(s =~= "<Start>"@ + (a + "</Start>"@ + ("<End>"@ + tail)));
    let k = head.len() as int;
    text::lemma_free_index(a, '<');
    assert(s.subrange(k, k + 5) =~= "<End>"@);
    assert(text::at(s, "<End>"@, k));
    text::a_search_finds_the_first_occurrence(s, "<End>"@, 0);
    let found = text::find_text(s, "<End>"@, 0);
    assert(found is Some);
    let i = found->0;
    if i < k {
        let t = s.subrange(i, i + 5);
        assert(t[0] == s[i] && t[1] == s[i + 1]);
        assert(s[i] == head[i]);
        if i < 7 {
            assert(s[i] == "<Start>"@[i]);
            assert(i == 0);
            assert(s[1] == "<Start>"@[1]);
        } else if i < 7 + a.len() {
            assert(s[i] == a[i - 7]);
        } else {
            assert(s[i] == "</Start>"@[i - 7 - a.len()]);
            assert(i == 7 + a.len());
            assert(s[i + 1] == "</Start>"@[1]);
        }
        assert(false);
    }
    assert(i == k);
    assert(s.skip(k + 5) =~= tail);
    lemma_tag_found(b, "</End>"@, none);
}

/// A listing is its ranges one after the other; a text without a tag lists none,
/// and a range without its end is refused.
pub proof fn a_listing_is_read_range_by_range(pre: Seq<char>, segment: Seq<char>, rest: Seq<char>)
    requires
        !text::has_char(pre, '<'),
        text::find_text(segment + "</PageRange>"@ + rest, "</PageRange>"@, 0) == Some(
            segment.len() as int,
        ),
    ensures
        listed_ranges(pre) == Ok::<Seq<(u64, u64)>, PageListError>(Seq::empty()),
        page_range(segment) matches Ok(range) ==> (listed_ranges(rest) matches Ok(more)
            ==> listed_ranges(pre + "<PageRange>"@ + (segment + "</PageRange>"@ + rest)) == Ok::<
            Seq<(u64, u64)>,
            PageListError,
        >(seq![range] + more)),
        page_range(segment) matches Err(e) ==> listed_ranges(
            pre + "<PageRange>"@ + (segment + "</PageRange>"@ + rest),
        ) == Err::<Seq<(u64, u64)>, _>(e),
        listed_ranges(rest) matches Err(e) ==> page_range(segment) is Ok ==> listed_ranges(
            pre + "<PageRange>"@ + (segment + "</PageRange>"@ + rest),
        ) == Err::<Seq<(u64, u64)>, _>(e),
        listed_ranges(pre + "<PageRange>"@ + pre) == Err::<Seq<(u64, u64)>, _>(
            PageListError::Unterminated,
        ),
{
    reveal_strlit("<PageRange>");
    reveal_strlit("</PageRange>");
    lemma_no_tag(pre, "<PageRange>"@);
    let after = segment + "</PageRange>"@ + rest;
    lemma_tag_found(pre, "<PageRange>"@, after);
    assert(after.take(segment.len() as int) =~= segment);
    assert(after.skip(segment.len() as int + 12) =~= rest);
    lemma_tag_found(pre, "<PageRange>"@, pre);
    lemma_no_tag(pre, "</PageRange>"@);
}

/// The requests of a server-side copy lie end to end: the first begins at 0, each of
/// the others where the one in front of it ends, and the last ends at the end of
/// the copy; each is a chunk or what is left.
pub proof fn the_requests_of_a_copy_lie_end_to_end(
    total: u64,
    chunk: u64,
    ranges: Option<Seq<(u64, u64)>>,
    k: int,
)
    requires
        chunk > 0,
        0 <= k < copy_steps(total, chunk, ranges).len(),
    ensures
        copy_steps(total, chunk, ranges)[0].offset == 0,
        0 < copy_steps(total, chunk, ranges)[k].len <= chunk,
        k + 1 < copy_steps(total, chunk, ranges).len() ==> copy_steps(total, chunk, ranges)[k + 1].offset
            == copy_steps(total, chunk, ranges)[k].offset + copy_steps(total, chunk, ranges)[k].len,
        k + 1 == copy_steps(total, chunk, ranges).len() ==> copy_steps(total, chunk, ranges)[k].offset
            + copy_steps(total, chunk, ranges)[k].len == total,
        ranges is None ==> copy_steps(total, chunk, ranges)[k].copy,
        ranges matches Some(r) ==> (copy_steps(total, chunk, ranges)[k].copy
            <==> backend::intersects(
            r,
            copy_steps(total, chunk, ranges)[k].offset as int,
            copy_steps(total, chunk, ranges)[k].len as int,
        )),
{
    let (t, c) = (total as int, chunk as int);
    lemma_chunks(t, c, 0);
    lemma_chunks(t, c, k);
    lemma_chunks(t, c, k + 1);
    assert(0 * c == 0) by (nonlinear_arith);
    assert((k + 1) * c == k * c + c) by (nonlinear_arith);
}

/// A copy of nothing asks for nothing, and one of something asks for something.
pub proof fn a_copy_of_nothing_asks_for_nothing(
    total: u64,
    chunk: u64,
    ranges: Option<Seq<(u64, u64)>>,
)
    requires
        chunk > 0,
    ensures
        copy_steps(total, chunk, ranges).len() == 0 <==> total == 0,
{
    lemma_chunks(total as int, chunk as int, 0);
    assert(0 * (chunk as int) == 0) by (nonlinear_arith);
}

} // verus!

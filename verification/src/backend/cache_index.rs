//! Cross-process page index for sharing clean cache pages.
//!
//! When two processes cache the same blob (the same `blob_identity`) in one
//! directory, a page that one of them holds clean can be served to the other off
//! local disk. A registry file records, one line per published page:
//!
//! ```text
//! <blob_identity>\t<page_idx>\t<owner>\t<pid>\t<len>
//! ```
//!
//! Only clean pages are published. Entries of processes that are gone are dropped
//! whenever the registry is read. Locking, reading and writing the file are the
//! caller's: `load` takes its text, `text` gives the text to write.

use vstd::prelude::*;

use crate::backend;
use crate::backend::cache_budget;
use crate::backend::{BackendError, BlobBackend};
use crate::text;

verus! {

/// One published clean page.
pub struct Entry {
    pub blob_identity: String,
    pub page_idx: u64,
    pub owner: String,
    pub pid: u32,
    pub len: u64,
}

/// What an entry records.
pub struct Record {
    pub blob_identity: Seq<char>,
    pub page_idx: u64,
    pub owner: Seq<char>,
    pub pid: u32,
    pub len: u64,
}

impl View for Entry {
    type V = Record;

    open spec fn view(&self) -> Record {
        Record {
            blob_identity: self.blob_identity@,
            page_idx: self.page_idx,
            owner: self.owner@,
            pid: self.pid,
            len: self.len,
        }
    }
}

/// The records that a sequence of entries holds.
pub open spec fn records(es: Seq<Entry>) -> Seq<Record> {
    es.map_values(|e: Entry| e@)
}

/// Who publishes: the blob, the cache's name and its process.
pub struct Publisher {
    pub blob_identity: Seq<char>,
    pub owner: Seq<char>,
    pub pid: u32,
}

/// `r` was published by `who` for its page `page_idx`.
pub open spec fn published_by(r: Record, who: Publisher, page_idx: u64) -> bool {
    r.owner == who.owner && r.pid == who.pid && r.blob_identity == who.blob_identity && r.page_idx
        == page_idx
}

/// Where `who`'s record of page `page_idx` stands at or after `i`, or the length.
pub open spec fn place(rs: Seq<Record>, who: Publisher, page_idx: u64, i: int) -> int
    decreases rs.len() - i,
{
    if i < 0 || i >= rs.len() {
        rs.len() as int
    } else if published_by(rs[i], who, page_idx) {
        i
    } else {
        place(rs, who, page_idx, i + 1)
    }
}

/// `place` stays in range.
proof fn lemma_place(rs: Seq<Record>, who: Publisher, page_idx: u64, i: int)
    requires
        0 <= i <= rs.len(),
    ensures
        i <= place(rs, who, page_idx, i) <= rs.len(),
        place(rs, who, page_idx, i) < rs.len() ==> published_by(
            rs[place(rs, who, page_idx, i)],
            who,
            page_idx,
        ),
    decreases rs.len() - i,
{
    if i < rs.len() && !published_by(rs[i], who, page_idx) {
        lemma_place(rs, who, page_idx, i + 1);
    }
}

/// `rs` with page `page_idx` of length `len` on record for `who`.
pub open spec fn with_page(rs: Seq<Record>, who: Publisher, page_idx: u64, len: u64) -> Seq<Record> {
    let k = place(rs, who, page_idx, 0);
    let r = Record { blob_identity: who.blob_identity, page_idx, owner: who.owner, pid: who.pid, len };
    if k < rs.len() {
        rs.update(k, r)
    } else {
        rs.push(r)
    }
}

/// `r` may serve page `page_idx` of length `len` to `who`: the same blob, page and
/// length, and another publisher.
pub open spec fn serves(r: Record, who: Publisher, page_idx: u64, len: u64) -> bool {
    &&& r.blob_identity == who.blob_identity
    &&& r.page_idx == page_idx
    &&& !(r.owner == who.owner && r.pid == who.pid)
    &&& r.len == len
}

/// The first record at or after `i` that may serve the page, or the length.
pub open spec fn server(rs: Seq<Record>, who: Publisher, page_idx: u64, len: u64, i: int) -> int
    decreases rs.len() - i,
{
    if i < 0 || i >= rs.len() {
        rs.len() as int
    } else if serves(rs[i], who, page_idx, len) {
        i
    } else {
        server(rs, who, page_idx, len, i + 1)
    }
}

/// `server` stays in range.
proof fn lemma_server(rs: Seq<Record>, who: Publisher, page_idx: u64, len: u64, i: int)
    requires
        0 <= i <= rs.len(),
    ensures
        i <= server(rs, who, page_idx, len, i) <= rs.len(),
        server(rs, who, page_idx, len, i) < rs.len() ==> serves(
            rs[server(rs, who, page_idx, len, i)],
            who,
            page_idx,
            len,
        ),
    decreases rs.len() - i,
{
    if i < rs.len() && !serves(rs[i], who, page_idx, len) {
        lemma_server(rs, who, page_idx, len, i + 1);
    }
}

/// Where `owner`'s file stands at or after `i`, or the length.
pub open spec fn holder<D>(files: Seq<(String, D)>, owner: Seq<char>, i: int) -> int
    decreases files.len() - i,
{
    if i < 0 || i >= files.len() {
        files.len() as int
    } else if files[i].0@ == owner {
        i
    } else {
        holder(files, owner, i + 1)
    }
}

/// `holder` stays in range.
proof fn lemma_holder<D>(files: Seq<(String, D)>, owner: Seq<char>, i: int)
    requires
        0 <= i <= files.len(),
    ensures
        0 <= holder(files, owner, i) <= files.len(),
    decreases files.len() - i,
{
    if i < files.len() && files[i].0@ != owner {
        lemma_holder(files, owner, i + 1);
    }
}

/// Files with the same names have the same `holder`.
proof fn lemma_same_holder<D>(
    a: Seq<(String, D)>,
    b: Seq<(String, D)>,
    owner: Seq<char>,
    i: int,
)
    requires
        0 <= i <= a.len(),
        a.len() == b.len(),
        forall|k: int| 0 <= k < a.len() ==> (#[trigger] b[k]).0 == a[k].0,
    ensures
        holder(a, owner, i) == holder(b, owner, i),
    decreases a.len() - i,
{
    if i < a.len() {
        assert(b[i].0 == a[i].0);
        if a[i].0@ != owner {
            lemma_same_holder(a, b, owner, i + 1);
        }
    }
}

/// Which of `files` is to serve page `page_idx` of length `len`, or their number
/// where none is.
pub open spec fn source_file<D>(
    index: CacheIndex,
    files: Seq<(String, D)>,
    page_idx: u64,
    len: u64,
) -> int {
    let k = server(index.records(), index.me(), page_idx, len, 0);
    if 0 <= k < index.records().len() && page_idx * index.page_len() <= u64::MAX {
        holder(files, index.records()[k].owner, 0)
    } else {
        files.len() as int
    }
}

/// What comes of reading page `page_idx` of length `len` from the file that is to
/// serve it: nothing where no file is, or where it is too short; and the page where
/// it holds it in whole 512-byte blocks, unless the file fails.
pub open spec fn page_served<D: BlobBackend>(
    index: CacheIndex,
    before: Seq<(String, D)>,
    after: Seq<(String, D)>,
    page_idx: u64,
    len: u64,
    r: Result<Option<Vec<u8>>, BackendError>,
) -> bool {
    let j = source_file(index, before, page_idx, len);
    if j >= before.len() {
        r == Ok::<Option<Vec<u8>>, BackendError>(None)
    } else {
        let at = page_idx * index.page_len();
        let size = before[j].1.bytes().len() as int;
        ||| after[j].1.faults() > before[j].1.faults()
        ||| at + len > size && r == Ok::<Option<Vec<u8>>, BackendError>(None)
        ||| at + len <= size && !backend::fair_range(at, len as int, size)
        ||| at + len <= size && r matches Ok(Some(_))
    }
}

/// The record that a registry line holds, if it is well formed.
pub open spec fn line_record(line: Seq<char>) -> Option<Record> {
    let l = text::trim_end_char(line, '\r');
    let parts = text::split(l, '\t');
    if l.len() > 0 && parts.len() >= 5 {
        match (
            text::number(parts[1], u64::MAX as nat),
            text::number(parts[3], u32::MAX as nat),
            text::number(parts[4], u64::MAX as nat),
        ) {
            (Some(page), Some(pid), Some(len)) => Some(
                Record {
                    blob_identity: parts[0],
                    page_idx: page as u64,
                    owner: parts[2],
                    pid: pid as u32,
                    len: len as u64,
                },
            ),
            _ => None,
        }
    } else {
        None
    }
}

/// The records of the first `n` lines.
pub open spec fn lines_records(lines: Seq<Seq<char>>, n: int) -> Seq<Record>
    decreases n,
{
    if n <= 0 {
        Seq::empty()
    } else {
        match line_record(lines[n - 1]) {
            Some(r) => lines_records(lines, n - 1).push(r),
            None => lines_records(lines, n - 1),
        }
    }
}

/// The records that a registry text holds; malformed lines count for nothing.
pub open spec fn text_records(s: Seq<char>) -> Seq<Record> {
    lines_records(text::lines(s), text::lines(s).len() as int)
}

/// One record as a registry line.
pub open spec fn record_line(r: Record) -> Seq<char> {
    r.blob_identity + seq!['\t'] + text::decimal(r.page_idx as nat) + seq!['\t'] + r.owner + seq![
        '\t',
    ] + text::decimal(r.pid as nat) + seq!['\t'] + text::decimal(r.len as nat) + seq!['\n']
}

/// The first `n` records as a registry text.
pub open spec fn records_text(rs: Seq<Record>, n: int) -> Seq<char>
    decreases n,
{
    if n <= 0 {
        Seq::empty()
    } else {
        records_text(rs, n - 1) + record_line(rs[n - 1])
    }
}

/// The records of `rs` whose process stays.
pub open spec fn pruned(rs: Seq<Record>, self_pid: u32, live: Seq<u32>) -> Seq<Record> {
    rs.filter(|r: Record| cache_budget::stays(r.pid, self_pid, live))
}

/// A copy of an entry.
fn copy_entry(e: &Entry) -> (r: Entry)
    ensures
        r@ == e@,
{
    Entry {
        blob_identity: e.blob_identity.clone(),
        page_idx: e.page_idx,
        owner: e.owner.clone(),
        pid: e.pid,
        len: e.len,
    }
}

/// Insert or update the entry of `owner` and `pid` for a page of a blob.
pub fn upsert(
    entries: &mut Vec<Entry>,
    blob_identity: &str,
    page_idx: u64,
    owner: &str,
    pid: u32,
    len: u64,
)
    ensures
        records(final(entries)@) == with_page(
            records(old(entries)@),
            (Publisher { blob_identity: blob_identity@, owner: owner@, pid }),
            page_idx,
            len,
        ),
{
    let ghost rs = records(entries@);
    let ghost who = Publisher { blob_identity: blob_identity@, owner: owner@, pid };
    let mut i: usize = 0;
    while i < entries.len()
        invariant
            i <= entries@.len(),
            entries@ == old(entries)@,
            rs == records(entries@),
            who == (Publisher { blob_identity: blob_identity@, owner: owner@, pid }),
            place(rs, who, page_idx, i as int) == place(rs, who, page_idx, 0),
        decreases entries@.len() - i,
    {
        assert(rs[i as int] == entries@[i as int]@);
        let e = &entries[i];
        if e.pid == pid && e.page_idx == page_idx && text::same(e.owner.as_str(), owner)
            && text::same(e.blob_identity.as_str(), blob_identity) {
            let fresh = Entry {
                blob_identity: blob_identity.to_owned(),
                page_idx,
                owner: owner.to_owned(),
                pid,
                len,
            };
            entries.set(i, fresh);
            assert(records(entries@) =~= rs.update(i as int, fresh@));
            return ;
        }
        i = i + 1;
    }
    let fresh = Entry {
        blob_identity: blob_identity.to_owned(),
        page_idx,
        owner: owner.to_owned(),
        pid,
        len,
    };
    entries.push(fresh);
    assert(records(entries@) =~= rs.push(fresh@));
}

/// Drop the entries of processes that are gone, keeping our own in any case.
pub fn prune_dead(entries: Vec<Entry>, self_pid: u32, live: &Vec<u32>) -> (r: Vec<Entry>)
    ensures
        records(r@) == pruned(records(entries@), self_pid, live@),
{
    let ghost rs = records(entries@);
    let ghost keep = |r: Record| cache_budget::stays(r.pid, self_pid, live@);
    let mut out: Vec<Entry> = Vec::new();
    let mut i: usize = 0;
    while i < entries.len()
        invariant
            i <= entries@.len(),
            rs == records(entries@),
            keep == (|r: Record| cache_budget::stays(r.pid, self_pid, live@)),
            records(out@) == rs.take(i as int).filter(keep),
        decreases entries@.len() - i,
    {
        proof {
            assert(rs.take(i + 1).drop_last() == rs.take(i as int));
            assert(rs.take(i + 1).last() == entries@[i as int]@);
            reveal(Seq::filter);
        }
        let e = &entries[i];
        let ghost before = out@;
        if e.pid == self_pid || cache_budget::is_live(e.pid, live) {
            out.push(copy_entry(e));
            assert(records(out@) =~= records(before).push(e@));
        }
        i = i + 1;
    }
    assert(rs.take(rs.len() as int) == rs);
    out
}

/// The entries that a registry text holds; malformed lines count for nothing.
pub fn read_entries(s: &str) -> (r: Vec<Entry>)
    ensures
        records(r@) == text_records(s@),
{
    let lines = text::lines_of(s);
    let ghost ls = text::views(lines@);
    let mut out: Vec<Entry> = Vec::new();
    let mut i: usize = 0;
    while i < lines.len()
        invariant
            i <= lines@.len(),
            ls == text::views(lines@),
            records(out@) == lines_records(ls, i as int),
        decreases lines@.len() - i,
    {
        let ghost before = out@;
        assert(ls[i as int] == lines@[i as int]@);
        let line = text::without_trailing(lines[i].as_str(), '\r');
        let parts = text::split_at(line.as_str(), '\t');
        let ghost ps = text::split(line@, '\t');
        assert(text::views(parts@).len() == parts@.len());
        if !line.as_str().is_empty() && parts.len() >= 5 {
            assert forall|k: int| 0 <= k < 5 implies #[trigger] ps[k] == parts@[k]@ by {}
            match (
                text::parse_u64(parts[1].as_str()),
                text::parse_u32(parts[3].as_str()),
                text::parse_u64(parts[4].as_str()),
            ) {
                (Some(page_idx), Some(pid), Some(len)) => {
                    let e = Entry {
                        blob_identity: parts[0].clone(),
                        page_idx,
                        owner: parts[2].clone(),
                        pid,
                        len,
                    };
                    out.push(e);
                    assert(records(out@) =~= records(before).push(e@));
                },
                _ => {},
            }
        }
        i = i + 1;
    }
    out
}

/// The registry text of `entries`.
pub fn write_entries(entries: &Vec<Entry>) -> (r: String)
    ensures
        r@ == records_text(records(entries@), entries@.len() as int),
{
    let ghost rs = records(entries@);
    let mut out = String::new();
    let mut i: usize = 0;
    while i < entries.len()
        invariant
            i <= entries@.len(),
            rs == records(entries@),
            out@ == records_text(rs, i as int),
        decreases entries@.len() - i,
    {
        let ghost before = out@;
        out.append(entries[i].blob_identity.as_str());
        out.push('\t');
        out.append(text::decimal_of(entries[i].page_idx).as_str());
        out.push('\t');
        out.append(entries[i].owner.as_str());
        out.push('\t');
        out.append(text::decimal_of(entries[i].pid as u64).as_str());
        out.push('\t');
        out.append(text::decimal_of(entries[i].len).as_str());
        out.push('\n');
        proof {
            assert(rs[i as int] == entries@[i as int]@);
            assert(out@ =~= before + record_line(rs[i as int]));
        }
        i = i + 1;
    }
    out
}

/// A shared directory of clean pages, as of the last time its registry was read.
pub struct CacheIndex {
    owner: String,
    blob_identity: String,
    pid: u32,
    page_size: u64,
    entries: Vec<Entry>,
}

/// Why an index cannot be opened.
#[derive(Debug)]
pub enum IndexError {
    /// A cache's name may not hold a tab or a newline.
    BadOwner(String),
    /// A blob's identity may not hold a tab or a newline.
    BadIdentity(String),
}

impl CacheIndex {
    /// Who publishes here.
    pub closed spec fn me(&self) -> Publisher {
        Publisher { blob_identity: self.blob_identity@, owner: self.owner@, pid: self.pid }
    }

    /// The registry's records.
    pub closed spec fn records(&self) -> Seq<Record> {
        records(self.entries@)
    }

    /// The page size.
    pub closed spec fn page_len(&self) -> u64 {
        self.page_size
    }

    /// Page `p` is on record as published here.
    pub open spec fn published(&self, p: u64) -> bool {
        exists|i: int|
            0 <= i < self.records().len() && #[trigger] published_by(self.records()[i], self.me(), p)
    }

    /// The index after page `p` was published.
    pub proof fn lemma_published(&self, before: Self, p: u64, len: u64)
        requires
            self.me() == before.me(),
            self.records() == with_page(before.records(), before.me(), p, len),
        ensures
            forall|q: u64| #[trigger] self.published(q) == (q == p || before.published(q)),
    {
        let rs = before.records();
        let who = before.me();
        lemma_place(rs, who, p, 0);
        let k = place(rs, who, p, 0);
        let now = self.records();
        assert forall|q: u64| #[trigger] self.published(q) == (q == p || before.published(q)) by {
            if q == p {
                assert(published_by(now[k], who, p));
            }
            if before.published(q) {
                let i = choose|i: int| 0 <= i < rs.len() && #[trigger] published_by(rs[i], who, q);
                assert(published_by(now[i], who, q));
            }
            if self.published(q) && q != p {
                let i = choose|i: int| 0 <= i < now.len() && #[trigger] published_by(now[i], who, q);
                assert(i != k);
                assert(published_by(rs[i], who, q));
            }
        }
    }

    /// The index after page `only`, or every page, was withdrawn.
    pub proof fn lemma_withdrawn(&self, before: Self, only: Option<u64>)
        requires
            self.me() == before.me(),
            self.records() == before.records().filter(withdrawn_by(before.me(), only)),
        ensures
            forall|q: u64| #[trigger]
                self.published(q) == (only is Some && only != Some(q) && before.published(q)),
    {
        let rs = before.records();
        let who = before.me();
        let keep = withdrawn_by(who, only);
        let now = self.records();
        assert forall|q: u64| #[trigger] self.published(q) == (only is Some && only != Some(q)
            && before.published(q)) by {
            if self.published(q) {
                let i = choose|i: int| 0 <= i < now.len() && #[trigger] published_by(now[i], who, q);
                rs.lemma_filter_pred(keep, i);
                rs.lemma_filter_contains_rev(keep, now[i]);
                let j = choose|j: int| 0 <= j < rs.len() && rs[j] == now[i];
                assert(published_by(rs[j], who, q));
            }
            if only is Some && only != Some(q) && before.published(q) {
                let j = choose|j: int| 0 <= j < rs.len() && #[trigger] published_by(rs[j], who, q);
                rs.lemma_filter_contains(keep, j);
                let i = choose|i: int| 0 <= i < now.len() && now[i] == rs[j];
                assert(published_by(now[i], who, q));
            }
        }
    }

    /// Open the index whose registry text is `registry`.
    pub fn open(
        owner: &str,
        pid: u32,
        blob_identity: &str,
        page_size: u64,
        registry: &str,
        live: &Vec<u32>,
    ) -> (r: Result<Self, IndexError>)
        ensures
            match r {
                Ok(x) => {
                    &&& cache_budget::nameable(owner@)
                    &&& cache_budget::nameable(blob_identity@)
                    &&& x.me() == (Publisher { blob_identity: blob_identity@, owner: owner@, pid })
                    &&& x.page_len() == page_size
                    &&& x.records() == pruned(text_records(registry@), pid, live@)
                },
                Err(IndexError::BadOwner(o)) => !cache_budget::nameable(owner@) && o@ == owner@,
                Err(IndexError::BadIdentity(b)) => cache_budget::nameable(owner@)
                    && !cache_budget::nameable(blob_identity@) && b@ == blob_identity@,
            },
    {
        if text::contains_char(owner, '\t') || text::contains_char(owner, '\n') {
            return Err(IndexError::BadOwner(owner.to_owned()));
        }
        if text::contains_char(blob_identity, '\t') || text::contains_char(blob_identity, '\n') {
            return Err(IndexError::BadIdentity(blob_identity.to_owned()));
        }
        let mut x = CacheIndex {
            owner: owner.to_owned(),
            blob_identity: blob_identity.to_owned(),
            pid,
            page_size,
            entries: Vec::new(),
        };
        x.load(registry, live);
        Ok(x)
    }

    /// Take over the registry text `registry`, dropping dead owners.
    pub fn load(&mut self, registry: &str, live: &Vec<u32>)
        ensures
            final(self).me() == old(self).me(),
            final(self).page_len() == old(self).page_len(),
            final(self).records() == pruned(text_records(registry@), old(self).me().pid, live@),
    {
        self.entries = prune_dead(read_entries(registry), self.pid, live);
    }

    /// The registry text to write back.
    pub fn text(&self) -> (r: String)
        ensures
            r@ == records_text(self.records(), self.records().len() as int),
    {
        write_entries(&self.entries)
    }

    /// Advertise that this owner holds `page_idx` clean on local disk.
    pub fn publish(&mut self, page_idx: u64, len: u64)
        ensures
            final(self).me() == old(self).me(),
            final(self).page_len() == old(self).page_len(),
            final(self).records() == with_page(old(self).records(), old(self).me(), page_idx, len),
    {
        upsert(
            &mut self.entries,
            self.blob_identity.as_str(),
            page_idx,
            self.owner.as_str(),
            self.pid,
            len,
        );
    }

    fn retain_others(&mut self, only: Option<u64>)
        ensures
            final(self).me() == old(self).me(),
            final(self).page_len() == old(self).page_len(),
            final(self).records() == old(self).records().filter(withdrawn_by(old(self).me(), only)),
    {
        let ghost rs = self.records();
        let ghost keep = withdrawn_by(self.me(), only);
        let mut out: Vec<Entry> = Vec::new();
        let mut i: usize = 0;
        while i < self.entries.len()
            invariant
                i <= self.entries@.len(),
                *self == *old(self),
                rs == records(self.entries@),
                keep == withdrawn_by(self.me(), only),
                records(out@) == rs.take(i as int).filter(keep),
            decreases self.entries@.len() - i,
        {
            proof {
                assert(rs.take(i + 1).drop_last() == rs.take(i as int));
                assert(rs.take(i + 1).last() == self.entries@[i as int]@);
                reveal(Seq::filter);
            }
            let e = &self.entries[i];
            let ghost before = out@;
            let mine = e.pid == self.pid && text::same(e.owner.as_str(), self.owner.as_str());
            let drop = mine && match only {
                Some(page_idx) => e.page_idx == page_idx && text::same(
                    e.blob_identity.as_str(),
                    self.blob_identity.as_str(),
                ),
                None => true,
            };
            if !drop {
                out.push(copy_entry(e));
                assert(records(out@) =~= records(before).push(e@));
            }
            i = i + 1;
        }
        assert(rs.take(rs.len() as int) == rs);
        self.entries = out;
    }

    /// Withdraw `page_idx`: it was evicted, or is being dirtied by this owner.
    pub fn unpublish(&mut self, page_idx: u64)
        ensures
            final(self).me() == old(self).me(),
            final(self).page_len() == old(self).page_len(),
            final(self).records() == old(self).records().filter(
                withdrawn_by(old(self).me(), Some(page_idx)),
            ),
    {
        self.retain_others(Some(page_idx));
    }

    /// Withdraw every page that this owner has published.
    pub fn unpublish_all(&mut self)
        ensures
            final(self).me() == old(self).me(),
            final(self).page_len() == old(self).page_len(),
            final(self).records() == old(self).records().filter(withdrawn_by(old(self).me(), None)),
    {
        self.retain_others(None);
    }

    /// The owner of a live peer's clean copy of page `page_idx`, of length `len`.
    pub fn peer_of(&self, page_idx: u64, len: u64) -> (r: Option<String>)
        ensures
            match r {
                Some(owner) => {
                    let k = server(self.records(), self.me(), page_idx, len, 0);
                    &&& 0 <= k < self.records().len()
                    &&& serves(self.records()[k], self.me(), page_idx, len)
                    &&& owner@ == self.records()[k].owner
                },
                None => forall|i: int|
                    0 <= i < self.records().len() ==> !serves(
                        #[trigger] self.records()[i],
                        self.me(),
                        page_idx,
                        len,
                    ),
            },
    {
        let ghost rs = self.records();
        let mut i: usize = 0;
        while i < self.entries.len()
            invariant
                i <= self.entries@.len(),
                rs == records(self.entries@),
                server(rs, self.me(), page_idx, len, i as int) == server(
                    rs,
                    self.me(),
                    page_idx,
                    len,
                    0,
                ),
                forall|j: int| 0 <= j < i ==> !serves(#[trigger] rs[j], self.me(), page_idx, len),
            decreases self.entries@.len() - i,
        {
            assert(rs[i as int] == self.entries@[i as int]@);
            let e = &self.entries[i];
            let mine = e.pid == self.pid && text::same(e.owner.as_str(), self.owner.as_str());
            if !mine && e.page_idx == page_idx && e.len == len && text::same(
                e.blob_identity.as_str(),
                self.blob_identity.as_str(),
            ) {
                return Some(e.owner.clone());
            }
            i = i + 1;
        }
        None
    }

    /// Serve page `page_idx`, `len` bytes long, from a live peer's data file.
    ///
    /// `files` holds the data files that could be opened, by owner. No peer, no
    /// file, or a file that is too short means `Ok(None)`: the caller fetches the
    /// page from the blob.
    pub fn read_peer_page<D: BlobBackend>(
        &self,
        page_idx: u64,
        len: u64,
        files: &mut Vec<(String, D)>,
    ) -> (r: Result<Option<Vec<u8>>, BackendError>)
        requires
            forall|i: int| 0 <= i < old(files)@.len() ==> (#[trigger] old(files)@[i]).1.valid(),
        ensures
            final(files)@.len() == old(files)@.len(),
            forall|i: int|
                0 <= i < old(files)@.len() ==> {
                    &&& (#[trigger] final(files)@[i]).0 == old(files)@[i].0
                    &&& final(files)@[i].1.valid()
                    &&& final(files)@[i].1.bytes() == old(files)@[i].1.bytes()
                    &&& final(files)@[i].1.faults() >= old(files)@[i].1.faults()
                },
            r matches Ok(Some(data)) ==> {
                let k = server(self.records(), self.me(), page_idx, len, 0);
                let at = page_idx * self.page_len();
                &&& 0 <= k < self.records().len()
                &&& data@.len() == len
                &&& exists|i: int|
                    0 <= i < old(files)@.len() && (#[trigger] old(files)@[i]).0@ == self.records()[k].owner
                        && (len > 0 ==> at + len <= old(files)@[i].1.bytes().len() && data@ == old(
                        files,
                    )@[i].1.bytes().subrange(at, at + len))
            },
            (forall|i: int|
                0 <= i < self.records().len() ==> !serves(
                    #[trigger] self.records()[i],
                    self.me(),
                    page_idx,
                    len,
                )) ==> r == Ok::<Option<Vec<u8>>, BackendError>(None),
            page_served(*self, old(files)@, final(files)@, page_idx, len, r),
    {
        proof {
            lemma_server(self.records(), self.me(), page_idx, len, 0);
        }
        let owner = match self.peer_of(page_idx, len) {
            Some(o) => o,
            None => {
                return Ok(None);
            },
        };
        let offset: u64 = match page_idx.checked_mul(self.page_size) {
            Some(o) => o,
            None => {
                return Ok(None);
            },
        };
        let mut i: usize = 0;
        while i < files.len()
            invariant
                i <= files@.len(),
                files@ == old(files)@,
                offset == page_idx * self.page_len(),
                forall|i: int| 0 <= i < old(files)@.len() ==> (#[trigger] old(files)@[i]).1.valid(),
                ({
                    let k = server(self.records(), self.me(), page_idx, len, 0);
                    &&& 0 <= k < self.records().len()
                    &&& serves(self.records()[k], self.me(), page_idx, len)
                    &&& owner@ == self.records()[k].owner
                }),
                source_file(*self, files@, page_idx, len) == holder(files@, owner@, i as int),
            decreases files@.len() - i,
        {
            if text::same(files[i].0.as_str(), owner.as_str()) {
                let size = match files[i].1.size() {
                    Ok(n) => n,
                    Err(e) => {
                        return Err(e);
                    },
                };
                if offset > size || len > size - offset {
                    return Ok(None);
                }
                let r = files[i].1.read(offset, len);
                match r {
                    Ok(data) => {
                        if data.len() as u64 == len {
                            assert(old(files)@[i as int].0@ == owner@);
                            return Ok(Some(data));
                        }
                        return Ok(None);
                    },
                    Err(e) => {
                        return Err(e);
                    },
                }
            }
            i = i + 1;
        }
        Ok(None)
    }

    /// How many pages this owner has published.
    pub fn published_count(&self) -> (r: usize)
        ensures
            r == self.records().filter(
                |r: Record| r.owner == self.me().owner && r.pid == self.me().pid,
            ).len(),
    {
        let ghost rs = self.records();
        let ghost mine = |r: Record| r.owner == self.me().owner && r.pid == self.me().pid;
        let mut n: usize = 0;
        let mut i: usize = 0;
        while i < self.entries.len()
            invariant
                i <= self.entries@.len(),
                n <= i,
                rs == records(self.entries@),
                mine == (|r: Record| r.owner == self.me().owner && r.pid == self.me().pid),
                n == rs.take(i as int).filter(mine).len(),
            decreases self.entries@.len() - i,
        {
            proof {
                assert(rs.take(i + 1).drop_last() == rs.take(i as int));
                assert(rs.take(i + 1).last() == self.entries@[i as int]@);
                reveal(Seq::filter);
            }
            let e = &self.entries[i];
            if e.pid == self.pid && text::same(e.owner.as_str(), self.owner.as_str()) {
                n = n + 1;
            }
            i = i + 1;
        }
        assert(rs.take(rs.len() as int) == rs);
        n
    }
}

/// The clean pages that live peers offer: the index as it was last read, and the
/// peers' data files that could be opened, by owner.
pub struct Peers<P> {
    pub index: CacheIndex,
    pub files: Vec<(String, P)>,
}

impl<P: BlobBackend> Peers<P> {
    /// The files are usable.
    pub open spec fn valid(&self) -> bool {
        forall|i: int| 0 <= i < self.files@.len() ==> (#[trigger] self.files@[i]).1.valid()
    }

    /// A peer's copy of page `p`, `len` bytes long, reads `d`.
    pub open spec fn offers(&self, p: u64, len: u64, d: Seq<u8>) -> bool {
        let k = server(self.index.records(), self.index.me(), p, len, 0);
        let at = p * self.index.page_len();
        &&& 0 <= k < self.index.records().len()
        &&& d.len() == len
        &&& exists|i: int|
            0 <= i < self.files@.len() && (#[trigger] self.files@[i]).0@ == self.index.records()[k].owner
                && (len > 0 ==> at + len <= self.files@[i].1.bytes().len() && d
                == self.files@[i].1.bytes().subrange(at, at + len))
    }

    /// The same index and the same bytes in the files.
    pub open spec fn same_pages(&self, o: Self) -> bool {
        &&& self.index == o.index
        &&& self.files@.len() == o.files@.len()
        &&& forall|i: int|
            0 <= i < o.files@.len() ==> {
                &&& (#[trigger] self.files@[i]).0 == o.files@[i].0
                &&& self.files@[i].1.bytes() == o.files@[i].1.bytes()
            }
    }

    /// The file that is to serve page `p`, `len` bytes long, has it, in whole 512-byte
    /// blocks.
    pub open spec fn has(&self, p: u64, len: u64) -> bool {
        let j = source_file(self.index, self.files@, p, len);
        let at = p * self.index.page_len();
        0 <= j < self.files@.len() && backend::fair_range(
            at,
            len as int,
            self.files@[j].1.bytes().len() as int,
        )
    }

    /// Reading the files changes nothing of what they have.
    pub proof fn lemma_same_has(a: Self, b: Self, p: u64, len: u64)
        requires
            b.same_pages(a),
        ensures
            a.has(p, len) == b.has(p, len),
    {
        let k = server(a.index.records(), a.index.me(), p, len, 0);
        assert forall|i: int| 0 <= i < a.files@.len() implies (#[trigger] b.files@[i]).0
            == a.files@[i].0 by {}
        lemma_same_holder(a.files@, b.files@, a.index.records()[k].owner, 0);
        let j = source_file(a.index, a.files@, p, len);
        if 0 <= j < a.files@.len() {
            assert(b.files@[j].0 == a.files@[j].0);
        }
    }

    /// Pages and files consist of whole 512-byte blocks.
    pub open spec fn even(&self) -> bool {
        &&& self.index.page_len() % 512 == 0
        &&& forall|i: int|
            0 <= i < self.files@.len() ==> (#[trigger] self.files@[i]).1.bytes().len() % 512 == 0
    }

    /// No file forgets a failed request.
    pub open spec fn grew(&self, o: Self) -> bool {
        &&& self.files@.len() == o.files@.len()
        &&& forall|i: int|
            0 <= i < o.files@.len() ==> (#[trigger] self.files@[i]).1.faults()
                >= o.files@[i].1.faults()
    }

    /// Some file has failed a fair request since `o`.
    pub open spec fn failed_since(&self, o: Self) -> bool {
        exists|i: int|
            0 <= i < o.files@.len() && (#[trigger] self.files@[i]).1.faults()
                > o.files@[i].1.faults()
    }

    /// A failure is not forgotten.
    pub proof fn lemma_failed(&self, mid: Self, o: Self)
        requires
            self.grew(mid),
            mid.grew(o),
        ensures
            self.grew(o),
            self.failed_since(mid) || mid.failed_since(o) ==> self.failed_since(o),
    {
        assert forall|i: int| 0 <= i < o.files@.len() implies (#[trigger] self.files@[i]).1.faults()
            >= o.files@[i].1.faults() by {
            assert(mid.files@[i].1.faults() >= o.files@[i].1.faults());
        }
        if mid.failed_since(o) {
            let i = choose|i: int|
                0 <= i < o.files@.len() && (#[trigger] mid.files@[i]).1.faults()
                    > o.files@[i].1.faults();
            assert(self.files@[i].1.faults() >= mid.files@[i].1.faults());
        }
        if self.failed_since(mid) {
            let i = choose|i: int|
                0 <= i < mid.files@.len() && (#[trigger] self.files@[i]).1.faults()
                    > mid.files@[i].1.faults();
            assert(mid.files@[i].1.faults() >= o.files@[i].1.faults());
        }
    }

    /// Reading the files changes no offer.
    pub proof fn lemma_same_offers(a: Self, b: Self, p: u64, len: u64, d: Seq<u8>)
        requires
            b.same_pages(a),
        ensures
            a.offers(p, len, d) == b.offers(p, len, d),
    {
        let k = server(a.index.records(), a.index.me(), p, len, 0);
        let at = p * a.index.page_len();
        if a.offers(p, len, d) {
            let i = choose|i: int|
                0 <= i < a.files@.len() && (#[trigger] a.files@[i]).0@ == a.index.records()[k].owner
                    && (len > 0 ==> at + len <= a.files@[i].1.bytes().len() && d
                    == a.files@[i].1.bytes().subrange(at, at + len));
            assert(b.files@[i].0 == a.files@[i].0);
        }
        if b.offers(p, len, d) {
            let i = choose|i: int|
                0 <= i < b.files@.len() && (#[trigger] b.files@[i]).0@ == b.index.records()[k].owner
                    && (len > 0 ==> at + len <= b.files@[i].1.bytes().len() && d
                    == b.files@[i].1.bytes().subrange(at, at + len));
            assert(a.files@[i].0 == b.files@[i].0);
        }
    }

    /// A peer's copy of page `p`, `len` bytes long, if there is one.
    pub fn page(&mut self, p: u64, len: u64) -> (r: Result<Option<Vec<u8>>, BackendError>)
        requires
            old(self).valid(),
        ensures
            final(self).valid(),
            final(self).same_pages(*old(self)),
            r matches Ok(Some(d)) ==> old(self).offers(p, len, d@),
            (forall|i: int|
                0 <= i < old(self).index.records().len() ==> !serves(
                    #[trigger] old(self).index.records()[i],
                    old(self).index.me(),
                    p,
                    len,
                )) ==> r == Ok::<Option<Vec<u8>>, BackendError>(None),
            page_served(old(self).index, old(self).files@, final(self).files@, p, len, r),
            final(self).grew(*old(self)),
            final(self).even() == old(self).even(),
            old(self).has(p, len) ==> r matches Ok(Some(_)) || final(self).failed_since(*old(self)),
            r is Err && old(self).even() && len % 512 == 0 ==> final(self).failed_since(*old(self)),
    {
        let r = self.index.read_peer_page(p, len, &mut self.files);
        proof {
            if old(self).even() {
                assert forall|i: int| 0 <= i < self.files@.len() implies (
                #[trigger] self.files@[i]).1.bytes().len() % 512 == 0 by {
                    assert(old(self).files@[i].1.bytes().len() % 512 == 0);
                }
            }
            if self.even() {
                assert forall|i: int| 0 <= i < old(self).files@.len() implies (#[trigger] old(
                    self,
                ).files@[i]).1.bytes().len() % 512 == 0 by {
                    assert(self.files@[i].1.bytes().len() % 512 == 0);
                }
            }
            let j = source_file(self.index, old(self).files@, p, len);
            if old(self).has(p, len) && !(r matches Ok(Some(_))) {
                assert(self.files@[j].1.faults() > old(self).files@[j].1.faults());
            }
            if r is Err && old(self).even() && len % 512 == 0 {
                let k = server(self.index.records(), self.index.me(), p, len, 0);
                lemma_holder(old(self).files@, self.index.records()[k].owner, 0);
                assert((p * self.index.page_len()) % 512 == 0) by {
                    crate::backend::pages::lemma_page_aligned(self.index.page_len() as int, p as int);
                }
                assert(old(self).files@[j].1.bytes().len() % 512 == 0);
                assert(self.files@[j].1.faults() > old(self).files@[j].1.faults());
            }
        }
        r
    }
}

/// What a withdrawal by `who` keeps: everything but its record of page `only`, or
/// everything but its records where no page is given.
pub open spec fn withdrawn_by(who: Publisher, only: Option<u64>) -> spec_fn(Record) -> bool {
    |r: Record|
        !(match only {
            Some(page_idx) => published_by(r, who, page_idx),
            None => r.owner == who.owner && r.pid == who.pid,
        })
}

/// A page that its owner has withdrawn is served to no peer from that owner.
pub proof fn withdrawn_page_is_not_served(
    rs: Seq<Record>,
    who: Publisher,
    page_idx: u64,
    peer: Publisher,
    len: u64,
    i: int,
)
    requires
        0 <= i < rs.filter(withdrawn_by(who, Some(page_idx))).len(),
        serves(rs.filter(withdrawn_by(who, Some(page_idx)))[i], peer, page_idx, len),
        peer.blob_identity == who.blob_identity,
    ensures
        !(rs.filter(withdrawn_by(who, Some(page_idx)))[i].owner == who.owner && rs.filter(
            withdrawn_by(who, Some(page_idx)),
        )[i].pid == who.pid),
{
    let keep = withdrawn_by(who, Some(page_idx));
    rs.lemma_filter_pred(keep, i);
}

/// A record that a registry line can hold.
pub open spec fn storable(r: Record) -> bool {
    cache_budget::nameable(r.blob_identity) && cache_budget::nameable(r.owner)
}

/// A stored line holds its record.
proof fn lemma_line(r: Record)
    requires
        storable(r),
    ensures
        record_line(r) == record_line(r).drop_last().push('\n'),
        line_record(record_line(r).drop_last()) == Some(r),
        !text::has_char(record_line(r).drop_last(), '\n'),
        record_line(r).drop_last().len() > 0,
        record_line(r).drop_last().last() != '\r',
{
    let g = text::decimal(r.page_idx as nat);
    let p = text::decimal(r.pid as nat);
    let n = text::decimal(r.len as nat);
    let tab = seq!['\t'];
    let line = r.blob_identity + tab + g + tab + r.owner + tab + p + tab + n;
    assert(record_line(r).drop_last() =~= line);
    assert(record_line(r) =~= line.push('\n'));
    text::lemma_decimal(r.page_idx as nat);
    text::lemma_decimal(r.pid as nat);
    text::lemma_decimal(r.len as nat);
    text::number_reads_decimal(r.page_idx as nat, u64::MAX as nat);
    text::number_reads_decimal(r.pid as nat, u32::MAX as nat);
    text::number_reads_decimal(r.len as nat, u64::MAX as nat);
    text::lemma_digits_free(g, '\t');
    text::lemma_digits_free(p, '\t');
    text::lemma_digits_free(n, '\t');
    text::lemma_digits_free(g, '\n');
    text::lemma_digits_free(p, '\n');
    text::lemma_digits_free(n, '\n');
    assert(line.last() == n.last());
    assert(text::is_digit(n.last()));
    assert(text::trim_end_char(line, '\r') == line);
    text::lemma_split_five(r.blob_identity, g, r.owner, p, n, '\t');
    assert(!text::has_char(tab, '\n')) by {
        text::lemma_index_free(tab, '\n');
    }
    text::lemma_free_concat(r.blob_identity, tab, '\n');
    text::lemma_free_concat(r.blob_identity + tab, g, '\n');
    text::lemma_free_concat(r.blob_identity + tab + g, tab, '\n');
    text::lemma_free_concat(r.blob_identity + tab + g + tab, r.owner, '\n');
    text::lemma_free_concat(r.blob_identity + tab + g + tab + r.owner, tab, '\n');
    text::lemma_free_concat(r.blob_identity + tab + g + tab + r.owner + tab, p, '\n');
    text::lemma_free_concat(r.blob_identity + tab + g + tab + r.owner + tab + p, tab, '\n');
    text::lemma_free_concat(r.blob_identity + tab + g + tab + r.owner + tab + p + tab, n, '\n');
}

/// What was written to the registry is read back from it, record by record.
pub proof fn registry_reads_back(rs: Seq<Record>)
    requires
        forall|i: int| 0 <= i < rs.len() ==> storable(#[trigger] rs[i]),
    ensures
        text_records(records_text(rs, rs.len() as int)) == rs,
{
    lemma_reads_back(rs, rs.len() as int);
    assert(rs.take(rs.len() as int) == rs);
}

proof fn lemma_reads_back(rs: Seq<Record>, n: int)
    requires
        0 <= n <= rs.len(),
        forall|i: int| 0 <= i < rs.len() ==> storable(#[trigger] rs[i]),
    ensures
        records_text(rs, n).len() > 0 ==> records_text(rs, n).last() == '\n',
        text_records(records_text(rs, n)) == rs.take(n),
        text::lines(records_text(rs, n)).len() == n,
    decreases n,
{
    if n > 0 {
        lemma_reads_back(rs, n - 1);
        let before = records_text(rs, n - 1);
        let r = rs[n - 1];
        let line = record_line(r).drop_last();
        lemma_line(r);
        text::lemma_lines_push(before, line);
        assert(records_text(rs, n) =~= before + line + seq!['\n']);
        let ls = text::lines(records_text(rs, n));
        lemma_lines_prefix(text::lines(before), ls, n - 1);
        assert(rs.take(n) =~= rs.take(n - 1).push(r));
    } else {
        assert(text::lines(Seq::<char>::empty()) =~= Seq::<Seq<char>>::empty());
        assert(rs.take(0) =~= Seq::<Record>::empty());
    }
}

proof fn lemma_lines_prefix(a: Seq<Seq<char>>, b: Seq<Seq<char>>, n: int)
    requires
        0 <= n <= a.len() <= b.len(),
        a == b.take(a.len() as int),
    ensures
        lines_records(a, n) == lines_records(b, n),
    decreases n,
{
    if n > 0 {
        assert(a[n - 1] == b[n - 1]);
        lemma_lines_prefix(a, b, n - 1);
    }
}

/// A peer serves a page of the same blob, the same page and the same length; nobody
/// serves itself.
pub proof fn a_page_is_served_by_another_with_the_same_page(
    r: Record,
    who: Publisher,
    page_idx: u64,
    len: u64,
)
    ensures
        r.owner == who.owner && r.pid == who.pid ==> !serves(r, who, page_idx, len),
        r.blob_identity != who.blob_identity ==> !serves(r, who, page_idx, len),
        r.page_idx != page_idx ==> !serves(r, who, page_idx, len),
        r.len != len ==> !serves(r, who, page_idx, len),
        r.blob_identity == who.blob_identity && r.page_idx == page_idx && r.len == len && (r.owner
            != who.owner || r.pid != who.pid) ==> serves(r, who, page_idx, len),
{
}

/// The first record that may serve a page is asked; where one may, one is asked.
pub proof fn the_first_server_is_asked(
    rs: Seq<Record>,
    who: Publisher,
    page_idx: u64,
    len: u64,
    i: int,
)
    requires
        0 <= i <= rs.len(),
    ensures
        i <= server(rs, who, page_idx, len, i) <= rs.len(),
        server(rs, who, page_idx, len, i) < rs.len() ==> serves(
            rs[server(rs, who, page_idx, len, i)],
            who,
            page_idx,
            len,
        ),
        forall|j: int|
            i <= j < server(rs, who, page_idx, len, i) ==> !serves(
                #[trigger] rs[j],
                who,
                page_idx,
                len,
            ),
    decreases rs.len() - i,
{
    if i < rs.len() && !serves(rs[i], who, page_idx, len) {
        the_first_server_is_asked(rs, who, page_idx, len, i + 1);
    }
}

/// A page that was published is on record with its length, and the records of others
/// and of other pages are as they were.
pub proof fn publishing_records_the_page(
    rs: Seq<Record>,
    who: Publisher,
    page_idx: u64,
    len: u64,
    r: Record,
)
    ensures
        with_page(rs, who, page_idx, len).contains(
            Record {
                blob_identity: who.blob_identity,
                page_idx,
                owner: who.owner,
                pid: who.pid,
                len,
            },
        ),
        !published_by(r, who, page_idx) ==> (with_page(rs, who, page_idx, len).contains(r)
            <==> rs.contains(r)),
        with_page(rs, who, page_idx, len).len() <= rs.len() + 1,
{
    lemma_place(rs, who, page_idx, 0);
    let k = place(rs, who, page_idx, 0);
    let new = Record { blob_identity: who.blob_identity, page_idx, owner: who.owner, pid: who.pid, len };
    let all = with_page(rs, who, page_idx, len);
    assert(all[k] == new);
    if !published_by(r, who, page_idx) {
        if rs.contains(r) {
            let i = choose|i: int| 0 <= i < rs.len() && rs[i] == r;
            assert(i != k);
            assert(all[i] == r);
        }
        if all.contains(r) {
            let i = choose|i: int| 0 <= i < all.len() && all[i] == r;
            assert(i != k);
            assert(rs[i] == r);
        }
    }
}

/// A page that was published by one is found by another that looks for the same page
/// of the same blob.
pub proof fn a_published_page_is_found_by_a_peer(
    rs: Seq<Record>,
    who: Publisher,
    peer: Publisher,
    page_idx: u64,
    len: u64,
)
    requires
        peer.blob_identity == who.blob_identity,
        peer.owner != who.owner || peer.pid != who.pid,
    ensures
        server(with_page(rs, who, page_idx, len), peer, page_idx, len, 0) < with_page(
            rs,
            who,
            page_idx,
            len,
        ).len(),
{
    let all = with_page(rs, who, page_idx, len);
    lemma_place(rs, who, page_idx, 0);
    let k = place(rs, who, page_idx, 0);
    assert(serves(all[k], peer, page_idx, len));
    the_first_server_is_asked(all, peer, page_idx, len, 0);
}

/// What leaves the index with dead processes is theirs, and nothing else.
pub proof fn dead_processes_leave_the_index(
    rs: Seq<Record>,
    self_pid: u32,
    live: Seq<u32>,
    r: Record,
)
    ensures
        pruned(rs, self_pid, live).contains(r) <==> rs.contains(r) && (r.pid == self_pid || (r.pid
            != 0 && live.contains(r.pid))),
{
    let keep = |q: Record| cache_budget::stays(q.pid, self_pid, live);
    let kept = pruned(rs, self_pid, live);
    if kept.contains(r) {
        let i = choose|i: int| 0 <= i < kept.len() && kept[i] == r;
        rs.lemma_filter_pred(keep, i);
        rs.lemma_filter_contains_rev(keep, r);
    }
    if rs.contains(r) && keep(r) {
        let i = choose|i: int| 0 <= i < rs.len() && rs[i] == r;
        rs.lemma_filter_contains(keep, i);
    }
}

/// A withdrawal takes one's own records out, of one page or of all, and leaves those
/// of everyone else.
pub proof fn a_withdrawal_takes_out_ones_own(
    rs: Seq<Record>,
    who: Publisher,
    page_idx: u64,
    r: Record,
)
    ensures
        rs.filter(withdrawn_by(who, None)).contains(r) <==> rs.contains(r) && !(r.owner == who.owner
            && r.pid == who.pid),
        rs.filter(withdrawn_by(who, Some(page_idx))).contains(r) <==> rs.contains(r) && !(r.owner
            == who.owner && r.pid == who.pid && r.blob_identity == who.blob_identity && r.page_idx
            == page_idx),
{
    lemma_filter_contains(rs, withdrawn_by(who, None), r);
    lemma_filter_contains(rs, withdrawn_by(who, Some(page_idx)), r);
}

proof fn lemma_filter_contains(rs: Seq<Record>, keep: spec_fn(Record) -> bool, r: Record)
    ensures
        rs.filter(keep).contains(r) <==> rs.contains(r) && keep(r),
{
    let kept = rs.filter(keep);
    if kept.contains(r) {
        let i = choose|i: int| 0 <= i < kept.len() && kept[i] == r;
        rs.lemma_filter_pred(keep, i);
        rs.lemma_filter_contains_rev(keep, r);
    }
    if rs.contains(r) && keep(r) {
        let i = choose|i: int| 0 <= i < rs.len() && rs[i] == r;
        rs.lemma_filter_contains(keep, i);
    }
}

/// An index line is the blob, the page, the owner, the process and the length, with
/// tabs between; a line with fewer fields is no record.
pub proof fn an_index_line_has_five_fields(r: Record, line: Seq<char>)
    ensures
        record_line(r) == r.blob_identity + seq!['\t'] + text::decimal(r.page_idx as nat)
            + seq!['\t'] + r.owner + seq!['\t'] + text::decimal(r.pid as nat) + seq!['\t']
            + text::decimal(r.len as nat) + seq!['\n'],
        text::split(text::trim_end_char(line, '\r'), '\t').len() < 5 ==> line_record(line) is None,
        line_record(line) matches Some(q) ==> {
            &&& text::split(text::trim_end_char(line, '\r'), '\t')[0] == q.blob_identity
            &&& text::split(text::trim_end_char(line, '\r'), '\t')[2] == q.owner
            &&& text::number(
                text::split(text::trim_end_char(line, '\r'), '\t')[1],
                u64::MAX as nat,
            ) == Some(q.page_idx as nat)
            &&& text::number(text::split(text::trim_end_char(line, '\r'), '\t')[3], 4294967295)
                == Some(q.pid as nat)
            &&& text::number(
                text::split(text::trim_end_char(line, '\r'), '\t')[4],
                u64::MAX as nat,
            ) == Some(q.len as nat)
        },
{
}

} // verus!

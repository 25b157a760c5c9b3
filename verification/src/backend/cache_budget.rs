//! Cross-process byte budget for the local-disk page cache.
//!
//! Several processes can share one cache directory. A registry file there
//! records, one line per owner, how many bytes of cached page data that owner
//! holds:
//!
//! ```text
//! <owner>\t<pid>\t<bytes>
//! ```
//!
//! The total over all live owners is held against one limit. A process that goes
//! over it evicts its own clean pages; entries of processes that are gone are
//! dropped whenever the registry is read. Locking, reading and writing the file
//! are the caller's: `load` takes its text, `text` gives the text to write.

use vstd::prelude::*;

use crate::text;

verus! {

/// One owner's accounting record.
pub struct Entry {
    pub owner: String,
    pub pid: u32,
    pub bytes: u64,
}

impl View for Entry {
    type V = (Seq<char>, u32, u64);

    open spec fn view(&self) -> (Seq<char>, u32, u64) {
        (self.owner@, self.pid, self.bytes)
    }
}

/// The records that a sequence of entries holds.
pub open spec fn records(es: Seq<Entry>) -> Seq<(Seq<char>, u32, u64)> {
    es.map_values(|e: Entry| e@)
}

/// Where the record of `owner` and `pid` stands at or after `i`, or the length.
pub open spec fn place(rs: Seq<(Seq<char>, u32, u64)>, owner: Seq<char>, pid: u32, i: int) -> int
    decreases rs.len() - i,
{
    if i < 0 || i >= rs.len() {
        rs.len() as int
    } else if rs[i].0 == owner && rs[i].1 == pid {
        i
    } else {
        place(rs, owner, pid, i + 1)
    }
}

/// `place` stays in range.
pub proof fn lemma_place(rs: Seq<(Seq<char>, u32, u64)>, owner: Seq<char>, pid: u32, i: int)
    requires
        0 <= i <= rs.len(),
    ensures
        i <= place(rs, owner, pid, i) <= rs.len(),
        place(rs, owner, pid, i) < rs.len() ==> rs[place(rs, owner, pid, i)].0 == owner
            && rs[place(rs, owner, pid, i)].1 == pid,
    decreases rs.len() - i,
{
    if i < rs.len() && !(rs[i].0 == owner && rs[i].1 == pid) {
        lemma_place(rs, owner, pid, i + 1);
    }
}

/// The bytes on record for `owner` and `pid`.
pub open spec fn balance(rs: Seq<(Seq<char>, u32, u64)>, owner: Seq<char>, pid: u32) -> u64 {
    let k = place(rs, owner, pid, 0);
    if k < rs.len() {
        rs[k].2
    } else {
        0
    }
}

/// `rs` with `bytes` on record for `owner` and `pid`.
pub open spec fn with_balance(
    rs: Seq<(Seq<char>, u32, u64)>,
    owner: Seq<char>,
    pid: u32,
    bytes: u64,
) -> Seq<(Seq<char>, u32, u64)> {
    let k = place(rs, owner, pid, 0);
    if k < rs.len() {
        rs.update(k, (owner, pid, bytes))
    } else {
        rs.push((owner, pid, bytes))
    }
}

/// The sum of all bytes on record.
pub open spec fn sum(rs: Seq<(Seq<char>, u32, u64)>) -> nat
    decreases rs.len(),
{
    if rs.len() == 0 {
        0
    } else {
        sum(rs.drop_last()) + rs.last().2 as nat
    }
}

/// The sum, cut at the largest 64-bit number.
pub open spec fn capped_sum(rs: Seq<(Seq<char>, u32, u64)>) -> int {
    if sum(rs) > u64::MAX {
        u64::MAX as int
    } else {
        sum(rs) as int
    }
}

/// How far `n` is above `max`.
pub open spec fn excess(n: int, max: int) -> int {
    if n > max {
        n - max
    } else {
        0
    }
}

/// Whether the record of `pid` stays: it is ours, or its process lives.
pub open spec fn stays(pid: u32, self_pid: u32, live: Seq<u32>) -> bool {
    pid == self_pid || (pid != 0 && live.contains(pid))
}

/// The record that a registry line holds, if it is well formed.
pub open spec fn line_record(line: Seq<char>) -> Option<(Seq<char>, u32, u64)> {
    let parts = text::split(text::trim(line), '\t');
    if text::trim(line).len() > 0 && parts.len() >= 3 {
        match (text::number(parts[1], u32::MAX as nat), text::number(parts[2], u64::MAX as nat)) {
            (Some(pid), Some(bytes)) => Some((parts[0], pid as u32, bytes as u64)),
            _ => None,
        }
    } else {
        None
    }
}

/// The records of the first `n` lines.
pub open spec fn lines_records(lines: Seq<Seq<char>>, n: int) -> Seq<(Seq<char>, u32, u64)>
    decreases n,
{
    if n <= 0 {
        Seq::empty()
    } else {
        match line_record(lines[n - 1]) {
            Some(r) => lines_records(lines, n - 1).push(r),
            None => lines_records(lines, n - 1),
        }
    }
}

/// The records that a registry text holds; malformed lines count for nothing.
pub open spec fn text_records(s: Seq<char>) -> Seq<(Seq<char>, u32, u64)> {
    lines_records(text::lines(s), text::lines(s).len() as int)
}

/// One record as a registry line.
pub open spec fn record_line(r: (Seq<char>, u32, u64)) -> Seq<char> {
    r.0 + seq!['\t'] + text::decimal(r.1 as nat) + seq!['\t'] + text::decimal(r.2 as nat) + seq!['\n']
}

/// The first `n` records as a registry text.
pub open spec fn records_text(rs: Seq<(Seq<char>, u32, u64)>, n: int) -> Seq<char>
    decreases n,
{
    if n <= 0 {
        Seq::empty()
    } else {
        records_text(rs, n - 1) + record_line(rs[n - 1])
    }
}

/// The records of `rs` whose process stays.
pub open spec fn pruned(rs: Seq<(Seq<char>, u32, u64)>, self_pid: u32, live: Seq<u32>) -> Seq<
    (Seq<char>, u32, u64),
> {
    rs.filter(|r: (Seq<char>, u32, u64)| stays(r.1, self_pid, live))
}

/// Sum of all owners' bytes, cut at the largest 64-bit number.
pub fn total(entries: &Vec<Entry>) -> (r: u64)
    ensures
        r == capped_sum(records(entries@)),
{
    let ghost rs = records(entries@);
    let mut acc: u64 = 0;
    let mut i: usize = 0;
    while i < entries.len()
        invariant
            i <= entries@.len(),
            rs == records(entries@),
            acc == capped_sum(rs.take(i as int)),
        decreases entries@.len() - i,
    {
        proof {
            assert(rs.take(i + 1).drop_last() == rs.take(i as int));
            assert(rs.take(i + 1).last() == entries@[i as int]@);
        }
        acc = acc.saturating_add(entries[i].bytes);
        i = i + 1;
    }
    assert(rs.take(rs.len() as int) == rs);
    acc
}

/// The index of the entry of `owner` and `pid`, inserting a fresh one with no
/// bytes where there is none.
pub fn upsert(entries: &mut Vec<Entry>, owner: &str, pid: u32) -> (k: usize)
    ensures
        k < final(entries)@.len(),
        k == place(records(old(entries)@), owner@, pid, 0),
        records(final(entries)@) == (if place(records(old(entries)@), owner@, pid, 0) < old(entries)@.len() {
            records(old(entries)@)
        } else {
            records(old(entries)@).push((owner@, pid, 0u64))
        }),
        records(final(entries)@)[k as int].0 == owner@,
        records(final(entries)@)[k as int].1 == pid,
{
    let ghost rs = records(entries@);
    proof {
        lemma_place(rs, owner@, pid, 0);
    }
    let mut i: usize = 0;
    while i < entries.len()
        invariant
            i <= entries@.len(),
            entries@ == old(entries)@,
            rs == records(entries@),
            place(rs, owner@, pid, i as int) == place(rs, owner@, pid, 0),
        decreases entries@.len() - i,
    {
        assert(rs[i as int] == entries@[i as int]@);
        if entries[i].pid == pid && text::same(entries[i].owner.as_str(), owner) {
            return i;
        }
        i = i + 1;
    }
    entries.push(Entry { owner: owner.to_owned(), pid, bytes: 0 });
    assert(records(entries@) =~= rs.push((owner@, pid, 0u64)));
    i
}

/// Whether `pid` is in `live`.
pub fn is_live(pid: u32, live: &Vec<u32>) -> (r: bool)
    ensures
        r == (pid != 0 && live@.contains(pid)),
{
    if pid == 0 {
        return false;
    }
    let mut i: usize = 0;
    while i < live.len()
        invariant
            i <= live@.len(),
            pid != 0,
            forall|j: int| 0 <= j < i ==> live@[j] != pid,
        decreases live@.len() - i,
    {
        if live[i] == pid {
            return true;
        }
        i = i + 1;
    }
    false
}

/// Drop the entries of processes that are gone, keeping our own in any case.
pub fn prune_dead(entries: Vec<Entry>, self_pid: u32, live: &Vec<u32>) -> (r: Vec<Entry>)
    ensures
        records(r@) == pruned(records(entries@), self_pid, live@),
{
    let ghost rs = records(entries@);
    let ghost keep = |r: (Seq<char>, u32, u64)| stays(r.1, self_pid, live@);
    let mut out: Vec<Entry> = Vec::new();
    let mut i: usize = 0;
    while i < entries.len()
        invariant
            i <= entries@.len(),
            rs == records(entries@),
            keep == (|r: (Seq<char>, u32, u64)| stays(r.1, self_pid, live@)),
            records(out@) == rs.take(i as int).filter(keep),
        decreases entries@.len() - i,
    {
        proof {
            assert(rs.take(i + 1).drop_last() == rs.take(i as int));
            assert(rs.take(i + 1).last() == entries@[i as int]@);
            reveal(Seq::filter);
        }
        let e = &entries[i];
        let ghost before = out@;
        if e.pid == self_pid || is_live(e.pid, live) {
            out.push(Entry { owner: e.owner.clone(), pid: e.pid, bytes: e.bytes });
            assert(records(out@) =~= records(before).push(e@));
        }
        i = i + 1;
    }
    assert(rs.take(rs.len() as int) == rs);
    out
}

/// The entries that a registry text holds; malformed lines count for nothing.
pub fn read_entries(s: &str) -> (r: Vec<Entry>)
    ensures
        records(r@) == text_records(s@),
{
    let lines = text::lines_of(s);
    let ghost ls = text::views(lines@);
    let mut out: Vec<Entry> = Vec::new();
    let mut i: usize = 0;
    while i < lines.len()
        invariant
            i <= lines@.len(),
            ls == text::views(lines@),
            records(out@) == lines_records(ls, i as int),
        decreases lines@.len() - i,
    {
        let ghost before = out@;
        let line = text::trimmed(lines[i].as_str());
        assert(ls[i as int] == lines@[i as int]@);
        let parts = text::split_at(line.as_str(), '\t');
        let ghost ps = text::split(line@, '\t');
        assert(text::views(parts@).len() == parts@.len());
        if !line.as_str().is_empty() && parts.len() >= 3 {
            assert(ps[0] == parts@[0]@ && ps[1] == parts@[1]@ && ps[2] == parts@[2]@);
            match (text::parse_u32(parts[1].as_str()), text::parse_u64(parts[2].as_str())) {
                (Some(pid), Some(bytes)) => {
                    let owner = parts[0].clone();
                    let e = Entry { owner, pid, bytes };
                    out.push(e);
                    assert(records(out@) =~= records(before).push(e@));
                },
                _ => {},
            }
        }
        i = i + 1;
    }
    out
}

/// The registry text of `entries`.
pub fn write_entries(entries: &Vec<Entry>) -> (r: String)
    ensures
        r@ == records_text(records(entries@), entries@.len() as int),
{
    let ghost rs = records(entries@);
    let mut out = String::new();
    let mut i: usize = 0;
    while i < entries.len()
        invariant
            i <= entries@.len(),
            rs == records(entries@),
            out@ == records_text(rs, i as int),
        decreases entries@.len() - i,
    {
        let ghost before = out@;
        out.append(entries[i].owner.as_str());
        out.push('\t');
        out.append(text::decimal_of(entries[i].pid as u64).as_str());
        out.push('\t');
        out.append(text::decimal_of(entries[i].bytes).as_str());
        out.push('\n');
        proof {
            assert(rs[i as int] == entries@[i as int]@);
            assert(out@ =~= before + record_line(rs[i as int]));
        }
        i = i + 1;
    }
    out
}

/// A shared byte budget, as of the last time its registry was read.
pub struct CacheBudget {
    limit: u64,
    owner: String,
    pid: u32,
    entries: Vec<Entry>,
}

/// Why a budget cannot be opened.
#[derive(Debug)]
pub enum BudgetError {
    /// An owner's name may not hold a tab or a newline.
    BadOwner(String),
}

/// A name that a registry line can hold.
pub open spec fn nameable(s: Seq<char>) -> bool {
    !text::has_char(s, '\t') && !text::has_char(s, '\n')
}

impl CacheBudget {
    /// The limit in bytes.
    pub closed spec fn limit(&self) -> u64 {
        self.limit
    }

    /// This owner's name and process.
    pub closed spec fn me(&self) -> (Seq<char>, u32) {
        (self.owner@, self.pid)
    }

    /// The registry's records.
    pub closed spec fn records(&self) -> Seq<(Seq<char>, u32, u64)> {
        records(self.entries@)
    }

    /// The bytes on record for this owner.
    pub open spec fn mine(&self) -> u64 {
        balance(self.records(), self.me().0, self.me().1)
    }

    /// `self` with `bytes` on record for this owner.
    pub open spec fn set_to(&self, bytes: u64) -> Seq<(Seq<char>, u32, u64)> {
        with_balance(self.records(), self.me().0, self.me().1, bytes)
    }

    /// How far the total is above the limit.
    pub open spec fn over(&self) -> int {
        excess(capped_sum(self.records()), self.limit() as int)
    }

    /// `before` with `bytes` more on record for this owner.
    pub open spec fn charged(&self, before: Self, bytes: int) -> bool {
        &&& self.limit() == before.limit()
        &&& self.me() == before.me()
        &&& self.records() == before.set_to(
            if before.mine() + bytes > u64::MAX {
                u64::MAX
            } else {
                (before.mine() + bytes) as u64
            },
        )
    }

    /// `before` with `bytes` less on record for this owner.
    pub open spec fn refunded(&self, before: Self, bytes: int) -> bool {
        &&& self.limit() == before.limit()
        &&& self.me() == before.me()
        &&& bytes == 0 ==> self.records() == before.records()
        &&& bytes != 0 ==> self.records() == before.set_to(
            if before.mine() < bytes {
                0u64
            } else {
                (before.mine() - bytes) as u64
            },
        )
    }

    /// `before` with exactly `bytes` on record for this owner.
    pub open spec fn settled(&self, before: Self, bytes: u64) -> bool {
        &&& self.limit() == before.limit()
        &&& self.me() == before.me()
        &&& self.records() == before.set_to(bytes)
    }

    /// No bytes less.
    pub proof fn lemma_refund_none(&self)
        ensures
            self.refunded(*self, 0),
    {
    }

    /// Two refunds make one.
    pub proof fn lemma_refund_more(&self, one: Self, two: Self, a: int, b: u64)
        requires
            a >= 0,
            b > 0,
            one.refunded(*self, a),
            two.refunded(one, b as int),
        ensures
            two.refunded(*self, a + b),
    {
        if a != 0 {
            let x = if self.mine() < a {
                0u64
            } else {
                (self.mine() - a) as u64
            };
            let y = if x < b {
                0u64
            } else {
                (x - b) as u64
            };
            lemma_set_twice(self.records(), self.me().0, self.me().1, x, y);
        }
    }

    /// Open the budget whose registry text is `registry`, with a fresh entry of
    /// no bytes for `owner`. A limit of 0 means unlimited: there is no budget.
    pub fn open(
        owner: &str,
        pid: u32,
        max_bytes: u64,
        registry: &str,
        live: &Vec<u32>,
    ) -> (r: Result<Option<Self>, BudgetError>)
        ensures
            match r {
                Ok(None) => max_bytes == 0,
                Ok(Some(b)) => {
                    &&& max_bytes > 0
                    &&& nameable(owner@)
                    &&& b.limit() == max_bytes
                    &&& b.me() == (owner@, pid)
                    &&& b.records() == with_balance(
                        pruned(text_records(registry@), pid, live@),
                        owner@,
                        pid,
                        0,
                    )
                },
                Err(BudgetError::BadOwner(o)) => max_bytes > 0 && !nameable(owner@) && o@ == owner@,
            },
    {
        if max_bytes == 0 {
            return Ok(None);
        }
        if text::contains_char(owner, '\t') || text::contains_char(owner, '\n') {
            return Err(BudgetError::BadOwner(owner.to_owned()));
        }
        let mut b = CacheBudget { limit: max_bytes, owner: owner.to_owned(), pid, entries: Vec::new() };
        b.load(registry, live);
        b.set_mine(0);
        Ok(Some(b))
    }

    /// Take over the registry text `registry`, dropping dead owners.
    pub fn load(&mut self, registry: &str, live: &Vec<u32>)
        ensures
            final(self).limit() == old(self).limit(),
            final(self).me() == old(self).me(),
            final(self).records() == pruned(text_records(registry@), old(self).me().1, live@),
    {
        self.entries = prune_dead(read_entries(registry), self.pid, live);
    }

    /// The registry text to write back.
    pub fn text(&self) -> (r: String)
        ensures
            r@ == records_text(self.records(), self.records().len() as int),
    {
        write_entries(&self.entries)
    }

    fn set_mine(&mut self, bytes: u64)
        ensures
            final(self).limit() == old(self).limit(),
            final(self).me() == old(self).me(),
            final(self).records() == old(self).set_to(bytes),
    {
        let k = upsert(&mut self.entries, self.owner.as_str(), self.pid);
        let ghost mid = self.entries@;
        let owner = self.owner.clone();
        self.entries.set(k, Entry { owner, pid: self.pid, bytes });
        proof {
            lemma_place(old(self).records(), self.owner@, self.pid, 0);
            assert(records(self.entries@) =~= records(mid).update(
                k as int,
                (self.owner@, self.pid, bytes),
            ));
            assert(self.records() =~= old(self).set_to(bytes));
        }
    }

    fn mine_now(&mut self) -> (r: u64)
        ensures
            r == old(self).mine(),
            final(self).limit() == old(self).limit(),
            final(self).me() == old(self).me(),
            final(self).records() == old(self).set_to(old(self).mine()),
    {
        let k = upsert(&mut self.entries, self.owner.as_str(), self.pid);
        proof {
            lemma_place(old(self).records(), self.owner@, self.pid, 0);
            assert(records(self.entries@)[k as int] == self.entries@[k as int]@);
            assert(self.records() =~= old(self).set_to(old(self).mine()));
        }
        self.entries[k].bytes
    }

    /// Set this owner's balance to `bytes` and return how far the total is over
    /// the limit.
    pub fn reset(&mut self, bytes: u64) -> (over: u64)
        ensures
            final(self).limit() == old(self).limit(),
            final(self).me() == old(self).me(),
            final(self).records() == old(self).set_to(bytes),
            over == final(self).over(),
    {
        self.set_mine(bytes);
        self.excess_now()
    }

    fn excess_now(&self) -> (over: u64)
        ensures
            over == self.over(),
    {
        total(&self.entries).saturating_sub(self.limit)
    }

    /// Add `bytes` to this owner's balance and return how far the total is over
    /// the limit: the caller evicts that many bytes of its own clean pages.
    pub fn charge(&mut self, bytes: u64) -> (over: u64)
        ensures
            final(self).limit() == old(self).limit(),
            final(self).me() == old(self).me(),
            final(self).records() == old(self).set_to(
                if old(self).mine() + bytes > u64::MAX {
                    u64::MAX
                } else {
                    (old(self).mine() + bytes) as u64
                },
            ),
            over == final(self).over(),
    {
        let n: u64 = self.mine_now().saturating_add(bytes);
        proof {
            lemma_set_twice(old(self).records(), self.me().0, self.me().1, old(self).mine(), n);
        }
        self.set_mine(n);
        self.excess_now()
    }

    /// Take `bytes` off this owner's balance.
    pub fn release(&mut self, bytes: u64)
        ensures
            final(self).limit() == old(self).limit(),
            final(self).me() == old(self).me(),
            final(self).records() == old(self).set_to(
                if old(self).mine() < bytes {
                    0u64
                } else {
                    (old(self).mine() - bytes) as u64
                },
            ),
    {
        let n: u64 = self.mine_now().saturating_sub(bytes);
        proof {
            lemma_set_twice(old(self).records(), self.me().0, self.me().1, old(self).mine(), n);
        }
        self.set_mine(n);
    }

    /// The limit in bytes.
    pub fn max_bytes(&self) -> (r: u64)
        ensures
            r == self.limit(),
    {
        self.limit
    }

    /// The bytes on record for all owners.
    pub fn global_total(&self) -> (r: u64)
        ensures
            r == capped_sum(self.records()),
    {
        total(&self.entries)
    }

    /// Drop this owner's entry, as a clean shutdown does.
    pub fn close(&mut self)
        ensures
            final(self).limit() == old(self).limit(),
            final(self).me() == old(self).me(),
            final(self).records() == old(self).records().filter(
                |r: (Seq<char>, u32, u64)| !(r.0 == old(self).me().0 && r.1 == old(self).me().1),
            ),
    {
        let ghost rs = self.records();
        let ghost keep = |r: (Seq<char>, u32, u64)| !(r.0 == old(self).me().0 && r.1 == old(self).me().1);
        let mut out: Vec<Entry> = Vec::new();
        let mut i: usize = 0;
        while i < self.entries.len()
            invariant
                i <= self.entries@.len(),
                *self == *old(self),
                rs == records(self.entries@),
                keep == (|r: (Seq<char>, u32, u64)|
                    !(r.0 == old(self).me().0 && r.1 == old(self).me().1)),
                records(out@) == rs.take(i as int).filter(keep),
            decreases self.entries@.len() - i,
        {
            proof {
                assert(rs.take(i + 1).drop_last() == rs.take(i as int));
                assert(rs.take(i + 1).last() == self.entries@[i as int]@);
                reveal(Seq::filter);
            }
            let e = &self.entries[i];
            let ghost before = out@;
            if !(e.pid == self.pid && text::same(e.owner.as_str(), self.owner.as_str())) {
                out.push(Entry { owner: e.owner.clone(), pid: e.pid, bytes: e.bytes });
                assert(records(out@) =~= records(before).push(e@));
            }
            i = i + 1;
        }
        assert(rs.take(rs.len() as int) == rs);
        self.entries = out;
    }
}

/// Setting a balance twice keeps the second value.
pub proof fn lemma_set_twice(
    rs: Seq<(Seq<char>, u32, u64)>,
    owner: Seq<char>,
    pid: u32,
    a: u64,
    b: u64,
)
    ensures
        with_balance(with_balance(rs, owner, pid, a), owner, pid, b) == with_balance(rs, owner, pid, b),
        balance(with_balance(rs, owner, pid, a), owner, pid) == a,
{
    lemma_place(rs, owner, pid, 0);
    let k = place(rs, owner, pid, 0);
    let one = with_balance(rs, owner, pid, a);
    lemma_place_kept(rs, one, owner, pid, 0);
    assert(with_balance(one, owner, pid, b) =~= with_balance(rs, owner, pid, b));
}

/// A changed or appended balance is found where the record stood.
proof fn lemma_place_kept(
    rs: Seq<(Seq<char>, u32, u64)>,
    one: Seq<(Seq<char>, u32, u64)>,
    owner: Seq<char>,
    pid: u32,
    i: int,
)
    requires
        0 <= i <= place(rs, owner, pid, 0),
        place(rs, owner, pid, i) == place(rs, owner, pid, 0),
        exists|a: u64| one == with_balance(rs, owner, pid, a),
    ensures
        place(one, owner, pid, i) == place(rs, owner, pid, 0),
    decreases place(rs, owner, pid, 0) - i,
{
    lemma_place(rs, owner, pid, 0);
    if i < place(rs, owner, pid, 0) {
        lemma_place(rs, owner, pid, i);
        if rs[i].0 == owner && rs[i].1 == pid {
            assert(place(rs, owner, pid, i) == i);
        }
        lemma_place_kept(rs, one, owner, pid, i + 1);
    }
}

/// A record that a registry line can hold.
pub open spec fn storable(r: (Seq<char>, u32, u64)) -> bool {
    nameable(r.0) && r.0.len() > 0 && !text::is_space(r.0[0])
}

/// A stored line holds its record.
proof fn lemma_line(r: (Seq<char>, u32, u64))
    requires
        storable(r),
    ensures
        record_line(r) == record_line(r).drop_last().push('\n'),
        line_record(record_line(r).drop_last()) == Some(r),
        !text::has_char(record_line(r).drop_last(), '\n'),
        record_line(r).drop_last().len() > 0,
        record_line(r).drop_last().last() != '\r',
{
    let p = text::decimal(r.1 as nat);
    let b = text::decimal(r.2 as nat);
    let line = r.0 + seq!['\t'] + p + seq!['\t'] + b;
    assert(record_line(r).drop_last() =~= line);
    assert(record_line(r) =~= line.push('\n'));
    text::lemma_decimal(r.1 as nat);
    text::lemma_decimal(r.2 as nat);
    text::number_reads_decimal(r.1 as nat, u32::MAX as nat);
    text::number_reads_decimal(r.2 as nat, u64::MAX as nat);
    text::lemma_digits_free(p, '\t');
    text::lemma_digits_free(b, '\t');
    text::lemma_digits_free(p, '\n');
    text::lemma_digits_free(b, '\n');
    assert(line.last() == b.last());
    assert(text::is_digit(b.last()));
    assert(line[0] == r.0[0]);
    text::lemma_trim_id(line);
    assert(line =~= r.0 + seq!['\t'] + (p + seq!['\t'] + b));
    text::lemma_split_head(r.0, '\t', p + seq!['\t'] + b);
    text::lemma_split_head(p, '\t', b);
    text::lemma_split_one(b, '\t');
    assert(text::split(line, '\t') =~= seq![r.0, p, b]);
    assert(!text::has_char(line, '\n')) by {
        text::lemma_free_index(r.0, '\n');
        text::lemma_free_index(p, '\n');
        text::lemma_free_index(b, '\n');
        assert forall|i: int| 0 <= i < line.len() implies line[i] != '\n' by {}
        text::lemma_index_free(line, '\n');
    }
}

/// What was written to the registry is read back from it, record by record.
pub proof fn registry_reads_back(rs: Seq<(Seq<char>, u32, u64)>)
    requires
        forall|i: int| 0 <= i < rs.len() ==> storable(#[trigger] rs[i]),
    ensures
        text_records(records_text(rs, rs.len() as int)) == rs,
{
    lemma_reads_back(rs, rs.len() as int);
    assert(rs.take(rs.len() as int) == rs);
}

proof fn lemma_reads_back(rs: Seq<(Seq<char>, u32, u64)>, n: int)
    requires
        0 <= n <= rs.len(),
        forall|i: int| 0 <= i < rs.len() ==> storable(#[trigger] rs[i]),
    ensures
        records_text(rs, n).len() > 0 ==> records_text(rs, n).last() == '\n',
        text_records(records_text(rs, n)) == rs.take(n),
        text::lines(records_text(rs, n)).len() == n,
    decreases n,
{
    if n > 0 {
        lemma_reads_back(rs, n - 1);
        let before = records_text(rs, n - 1);
        let r = rs[n - 1];
        let line = record_line(r).drop_last();
        lemma_line(r);
        text::lemma_lines_push(before, line);
        assert(records_text(rs, n) =~= before + line + seq!['\n']);
        let ls = text::lines(records_text(rs, n));
        lemma_lines_prefix(text::lines(before), ls, n - 1);
        assert(rs.take(n) =~= rs.take(n - 1).push(r));
    } else {
        assert(text::lines(Seq::<char>::empty()) =~= Seq::<Seq<char>>::empty());
        assert(rs.take(0) =~= Seq::<(Seq<char>, u32, u64)>::empty());
    }
}

proof fn lemma_lines_prefix(a: Seq<Seq<char>>, b: Seq<Seq<char>>, n: int)
    requires
        0 <= n <= a.len() <= b.len(),
        a == b.take(a.len() as int),
    ensures
        lines_records(a, n) == lines_records(b, n),
    decreases n,
{
    if n > 0 {
        assert(a[n - 1] == b[n - 1]);
        lemma_lines_prefix(a, b, n - 1);
    }
}

/// The sum with another amount in one record.
proof fn lemma_sum_update(rs: Seq<(Seq<char>, u32, u64)>, k: int, r: (Seq<char>, u32, u64))
    requires
        0 <= k < rs.len(),
    ensures
        sum(rs.update(k, r)) == sum(rs) - rs[k].2 + r.2,
    decreases rs.len(),
{
    let one = rs.update(k, r);
    if k == rs.len() - 1 {
        assert(one.drop_last() =~= rs.drop_last());
    } else {
        assert(one.drop_last() =~= rs.drop_last().update(k, r));
        lemma_sum_update(rs.drop_last(), k, r);
    }
}

/// A new balance of one owner moves the total by the difference.
pub proof fn a_balance_moves_the_total(before: CacheBudget, after: CacheBudget, bytes: u64)
    requires
        after.me() == before.me(),
        after.records() == before.set_to(bytes),
    ensures
        after.mine() == bytes,
        sum(after.records()) == sum(before.records()) - before.mine() + bytes,
        before.mine() <= sum(before.records()),
{
    let rs = before.records();
    let (owner, pid) = before.me();
    lemma_place(rs, owner, pid, 0);
    lemma_set_twice(rs, owner, pid, bytes, bytes);
    let k = place(rs, owner, pid, 0);
    if k < rs.len() {
        lemma_sum_update(rs, k, (owner, pid, bytes));
        lemma_sum_update(rs, k, (owner, pid, 0));
    } else {
        assert(rs.push((owner, pid, bytes)).drop_last() =~= rs);
    }
}

/// An owner that gives back as much as the total is above the limit, out of what is
/// on record for it, brings the total down to the limit.
pub proof fn a_refund_of_the_excess_meets_the_limit(
    before: CacheBudget,
    after: CacheBudget,
    freed: int,
)
    requires
        sum(before.records()) <= u64::MAX,
        before.over() <= freed <= before.mine(),
        after.refunded(before, freed),
    ensures
        after.over() == 0,
        capped_sum(after.records()) == capped_sum(before.records()) - freed,
{
    let rs = before.records();
    let (owner, pid) = before.me();
    lemma_place(rs, owner, pid, 0);
    let k = place(rs, owner, pid, 0);
    if freed != 0 {
        lemma_sum_update(rs, k, (owner, pid, (before.mine() - freed) as u64));
    }
}

/// A registry line is the owner, the process and the bytes, with tabs between; a
/// line with fewer fields, or without the numbers, is no record.
pub proof fn a_registry_line_has_three_fields(
    owner: Seq<char>,
    pid: u32,
    bytes: u64,
    line: Seq<char>,
)
    ensures
        record_line((owner, pid, bytes)) == owner + seq!['\t'] + text::decimal(pid as nat)
            + seq!['\t'] + text::decimal(bytes as nat) + seq!['\n'],
        !text::has_char(text::trim(line), '\t') ==> line_record(line) is None,
        text::trim(line).len() == 0 ==> line_record(line) is None,
        line_record(line) matches Some(r) ==> {
            &&& text::split(text::trim(line), '\t').len() >= 3
            &&& text::split(text::trim(line), '\t')[0] == r.0
            &&& text::number(text::split(text::trim(line), '\t')[1], 4294967295) == Some(r.1 as nat)
            &&& text::number(text::split(text::trim(line), '\t')[2], u64::MAX as nat) == Some(
                r.2 as nat,
            )
        },
{
    if !text::has_char(text::trim(line), '\t') {
        text::lemma_split_one(text::trim(line), '\t');
    }
}

/// The total grows by each record's bytes, and stops at the largest 64-bit number.
pub proof fn a_total_grows_by_each_record(rs: Seq<(Seq<char>, u32, u64)>, r: (Seq<char>, u32, u64))
    ensures
        sum(Seq::empty()) == 0,
        sum(rs.push(r)) == sum(rs) + r.2,
        sum(rs) <= u64::MAX ==> capped_sum(rs) == sum(rs),
        sum(rs) > u64::MAX ==> capped_sum(rs) == u64::MAX,
{
    assert(rs.push(r).drop_last() =~= rs);
}

/// The excess is what must go to be back at the limit; at or below the limit it is
/// nothing.
pub proof fn an_excess_is_what_must_go(n: int, max: int)
    ensures
        n <= max ==> excess(n, max) == 0,
        n > max ==> excess(n, max) > 0 && n - excess(n, max) == max,
{
}

/// The record of a process stays while the process lives, and our own stays in any
/// case; process 0 counts as dead.
pub proof fn dead_processes_leave_the_registry(
    rs: Seq<(Seq<char>, u32, u64)>,
    self_pid: u32,
    live: Seq<u32>,
    r: (Seq<char>, u32, u64),
)
    ensures
        stays(self_pid, self_pid, live),
        r.1 != 0 && live.contains(r.1) ==> stays(r.1, self_pid, live),
        r.1 != self_pid && !live.contains(r.1) ==> !stays(r.1, self_pid, live),
        self_pid != 0 ==> !stays(0, self_pid, live),
        pruned(rs, self_pid, live).contains(r) <==> rs.contains(r) && stays(r.1, self_pid, live),
{
    let keep = |q: (Seq<char>, u32, u64)| stays(q.1, self_pid, live);
    let kept = pruned(rs, self_pid, live);
    if kept.contains(r) {
        let i = choose|i: int| 0 <= i < kept.len() && kept[i] == r;
        rs.lemma_filter_pred(keep, i);
        rs.lemma_filter_contains_rev(keep, r);
    }
    if rs.contains(r) && stays(r.1, self_pid, live) {
        let i = choose|i: int| 0 <= i < rs.len() && rs[i] == r;
        rs.lemma_filter_contains(keep, i);
    }
}

/// A balance that was set is what is read for its owner, and no other owner's
/// balance changes.
pub proof fn a_balance_is_kept_for_its_owner(
    rs: Seq<(Seq<char>, u32, u64)>,
    owner: Seq<char>,
    pid: u32,
    bytes: u64,
    other: Seq<char>,
    other_pid: u32,
)
    ensures
        balance(Seq::empty(), owner, pid) == 0,
        balance(with_balance(rs, owner, pid, bytes), owner, pid) == bytes,
        other != owner || other_pid != pid ==> balance(
            with_balance(rs, owner, pid, bytes),
            other,
            other_pid,
        ) == balance(rs, other, other_pid),
{
    lemma_set_twice(rs, owner, pid, bytes, bytes);
    lemma_place(rs, owner, pid, 0);
    let k = place(rs, owner, pid, 0);
    let one = with_balance(rs, owner, pid, bytes);
    if k == rs.len() {
        lemma_place(one, owner, pid, 0);
        lemma_place_pushed(rs, (owner, pid, bytes), owner, pid, 0);
    } else {
        lemma_place_updated(rs, k, (owner, pid, bytes), owner, pid, 0);
    }
    if other != owner || other_pid != pid {
        if k == rs.len() {
            lemma_place_pushed(rs, (owner, pid, bytes), other, other_pid, 0);
        } else {
            lemma_place_updated(rs, k, (owner, pid, bytes), other, other_pid, 0);
        }
        lemma_place(rs, other, other_pid, 0);
    }
}

proof fn lemma_place_pushed(
    rs: Seq<(Seq<char>, u32, u64)>,
    r: (Seq<char>, u32, u64),
    owner: Seq<char>,
    pid: u32,
    i: int,
)
    requires
        0 <= i <= rs.len(),
    ensures
        place(rs, owner, pid, i) < rs.len() ==> place(rs.push(r), owner, pid, i) == place(
            rs,
            owner,
            pid,
            i,
        ),
        place(rs, owner, pid, i) >= rs.len() ==> place(rs.push(r), owner, pid, i) == (if r.0 == owner
            && r.1 == pid {
            rs.len() as int
        } else {
            rs.len() as int + 1
        }),
    decreases rs.len() - i,
{
    let more = rs.push(r);
    if i < rs.len() {
        assert(more[i] == rs[i]);
        if !(rs[i].0 == owner && rs[i].1 == pid) {
            lemma_place_pushed(rs, r, owner, pid, i + 1);
        }
    } else {
        assert(more[i] == r);
        assert(place(more, owner, pid, i + 1) == more.len());
    }
}

proof fn lemma_place_updated(
    rs: Seq<(Seq<char>, u32, u64)>,
    k: int,
    r: (Seq<char>, u32, u64),
    owner: Seq<char>,
    pid: u32,
    i: int,
)
    requires
        0 <= i <= rs.len(),
        0 <= k < rs.len(),
        rs[k].0 == r.0,
        rs[k].1 == r.1,
    ensures
        place(rs.update(k, r), owner, pid, i) == place(rs, owner, pid, i),
    decreases rs.len() - i,
{
    let one = rs.update(k, r);
    if i < rs.len() {
        assert(one[i].0 == rs[i].0 && one[i].1 == rs[i].1);
        if !(rs[i].0 == owner && rs[i].1 == pid) {
            lemma_place_updated(rs, k, r, owner, pid, i + 1);
        }
    }
}

/// A charge adds its bytes to its owner's balance and to the total; what is over
/// the limit then is the difference.
pub proof fn a_charge_adds_to_the_total(before: CacheBudget, after: CacheBudget, bytes: u64)
    requires
        after.charged(before, bytes as int),
        sum(before.records()) + bytes <= u64::MAX,
    ensures
        after.mine() == before.mine() + bytes,
        sum(after.records()) == sum(before.records()) + bytes,
        sum(before.records()) + bytes <= before.limit() ==> after.over() == 0,
        sum(before.records()) + bytes > before.limit() ==> after.over() == sum(before.records())
            + bytes - before.limit(),
{
    let rs = before.records();
    let (owner, pid) = before.me();
    lemma_place(rs, owner, pid, 0);
    let k = place(rs, owner, pid, 0);
    if k < rs.len() {
        lemma_sum_update(rs, k, (owner, pid, 0));
    }
    assert(before.mine() <= sum(rs));
    a_balance_moves_the_total(before, after, (before.mine() + bytes) as u64);
}

/// A refund takes its bytes off its owner's balance and off the total, no more than
/// the balance.
pub proof fn a_refund_lowers_the_total(before: CacheBudget, after: CacheBudget, bytes: u64)
    requires
        after.refunded(before, bytes as int),
        bytes > 0,
    ensures
        bytes <= before.mine() ==> after.mine() == before.mine() - bytes && sum(after.records())
            == sum(before.records()) - bytes,
        bytes > before.mine() ==> after.mine() == 0 && sum(after.records()) == sum(before.records())
            - before.mine(),
{
    if bytes <= before.mine() {
        a_balance_moves_the_total(before, after, (before.mine() - bytes) as u64);
    } else {
        a_balance_moves_the_total(before, after, 0);
    }
}

} // verus!

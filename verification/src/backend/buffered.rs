//! Write-back buffered backend.
//!
//! `BufferedBackend` wraps any `BlobBackend` and collects writes in memory, in
//! fixed-size pages that are flushed to the inner backend later. Reads are served
//! from the buffer where it holds the page, and from the inner backend elsewhere.
//! When more than `max_dirty_pages` pages are dirty, the oldest are flushed.

use std::collections::BTreeMap;

use vstd::prelude::*;

use crate::backend;
use crate::backend::maps;
use crate::backend::pages;
use crate::backend::{check_in_bounds, BackendError, BlobBackend, Op, Request};

verus! {

broadcast use {vstd::std_specs::btree::group_btree_axioms, vstd::laws_cmp::group_laws_cmp};

/// Nanoseconds in a second.
pub const NANOS_PER_SEC: u128 = 1_000_000_000;

/// Configuration of the write-back buffer.
#[derive(Debug, Clone, Copy, PartialEq, Eq, Structural)]
pub struct BufferedConfig {
    /// Size of each buffer page in bytes (a multiple of 512).
    pub page_size: u64,
    /// Number of dirty pages kept before the oldest are flushed.
    pub max_dirty_pages: usize,
    /// Flush after this many seconds without a write; 0 disables it.
    pub idle_flush_secs: u64,
    /// Flush at least this often, in seconds; 0 disables it.
    pub force_flush_timeout_secs: u64,
    /// Hard limit on one flush, in seconds, for the caller to apply; 0 for none.
    pub flush_io_timeout_secs: u64,
    /// Page writes that a flush may have in flight at once.
    pub flush_concurrency: usize,
}

impl Default for BufferedConfig {
    fn default() -> (r: Self)
        ensures
            r == (BufferedConfig {
                page_size: 4194304,
                max_dirty_pages: 64,
                idle_flush_secs: 15,
                force_flush_timeout_secs: 600,
                flush_io_timeout_secs: 0,
                flush_concurrency: 16,
            }),
    {
        BufferedConfig {
            page_size: 4194304,
            max_dirty_pages: 64,
            idle_flush_secs: 15,
            force_flush_timeout_secs: 600,
            flush_io_timeout_secs: 0,
            flush_concurrency: 16,
        }
    }
}

impl BufferedConfig {
    /// A usable configuration.
    pub open spec fn ok(&self) -> bool {
        self.page_size >= 512 && self.page_size % 512 == 0 && self.max_dirty_pages > 0
    }

    /// How often, in seconds, a background task looks whether a flush is due, or
    /// 0 where none is ever due.
    pub fn check_interval_secs(&self) -> (r: u64)
        ensures
            r == (if self.idle_flush_secs > 0 {
                if self.idle_flush_secs / 2 > 1 { (self.idle_flush_secs / 2) as int } else { 1 }
            } else if self.force_flush_timeout_secs > 0 {
                if self.force_flush_timeout_secs / 4 > 1 { (self.force_flush_timeout_secs / 4) as int } else { 1 }
            } else {
                0
            }),
            r > 0 <==> self.idle_flush_secs > 0 || self.force_flush_timeout_secs > 0,
            self.idle_flush_secs >= 2 ==> 2 * r <= self.idle_flush_secs < 2 * r + 2,
            self.idle_flush_secs == 0 && self.force_flush_timeout_secs >= 4 ==> 4 * r
                <= self.force_flush_timeout_secs < 4 * r + 4,
    {
        if self.idle_flush_secs > 0 {
            if self.idle_flush_secs / 2 > 1 {
                self.idle_flush_secs / 2
            } else {
                1
            }
        } else if self.force_flush_timeout_secs > 0 {
            if self.force_flush_timeout_secs / 4 > 1 {
                self.force_flush_timeout_secs / 4
            } else {
                1
            }
        } else {
            0
        }
    }

    /// How many page writes a flush may have in flight: at least one.
    pub fn in_flight(&self) -> (r: usize)
        ensures
            r == (if self.flush_concurrency == 0 { 1 } else { self.flush_concurrency as int }),
    {
        if self.flush_concurrency == 0 {
            1
        } else {
            self.flush_concurrency
        }
    }
}

/// Which background flush is due.
#[derive(Debug, Clone, Copy, PartialEq, Eq, Structural)]
pub enum FlushDue {
    /// No write for the idle time.
    Idle,
    /// No flush for the force time.
    Force,
    /// None.
    No,
}

/// A buffer page: `page_size` bytes.
struct Page {
    data: Vec<u8>,
    /// Modified since it was last flushed.
    dirty: bool,
    /// Stamp of the last change.
    seq: u64,
}

/// A copy of a dirty page on its way to the inner backend.
#[derive(Debug)]
pub struct PageSnapshot {
    page: u64,
    seq: u64,
    offset: u64,
    data: Vec<u8>,
}

impl PageSnapshot {
    /// The page.
    pub closed spec fn of_page(&self) -> u64 {
        self.page
    }

    /// The page's stamp when it was copied.
    pub closed spec fn stamp(&self) -> u64 {
        self.seq
    }

    /// The page's bytes when it was copied, as far as the device has them.
    pub closed spec fn bytes(&self) -> Seq<u8> {
        self.data@
    }
}


/// Write-back buffer in front of any `BlobBackend`.
pub struct BufferedBackend<B: BlobBackend> {
    inner: B,
    config: BufferedConfig,
    pages: BTreeMap<u64, Page>,
    /// Stamp of the latest change.
    seq_counter: u64,
    /// Device size, 0 until it is known.
    dev_size: u64,
    /// The owner's monotonic clock, in nanoseconds.
    now: u64,
    first_write: Option<u64>,
    last_write: Option<u64>,
    last_flush: Option<u64>,
    /// Fair requests that were failed here.
    declined: Ghost<nat>,
    /// The requests made so far.
    asked: Ghost<Seq<Request>>,
}

/// The time of the first write after a write at `now`.
pub open spec fn first_of(first: Option<u64>, now: u64) -> Option<u64> {
    match first {
        Some(t) => Some(t),
        None => Some(now),
    }
}

/// `secs` or more have gone by between `since` and `now`.
pub open spec fn elapsed(now: u64, since: u64, secs: u64) -> bool {
    now - since >= secs as int * NANOS_PER_SEC as int
}

/// The background flush that is due. The forced one counts from the last flush, or
/// from the first write where there was no flush yet.
pub open spec fn due(
    config: BufferedConfig,
    has_dirty: bool,
    now: u64,
    first_write: Option<u64>,
    last_write: Option<u64>,
    last_flush: Option<u64>,
) -> FlushDue {
    if !has_dirty {
        FlushDue::No
    } else if config.idle_flush_secs > 0 && (last_write matches Some(w) && elapsed(
        now,
        w,
        config.idle_flush_secs,
    )) {
        FlushDue::Idle
    } else if config.force_flush_timeout_secs > 0 && (match last_flush {
        Some(f) => elapsed(now, f, config.force_flush_timeout_secs),
        None => first_write matches Some(w) && elapsed(now, w, config.force_flush_timeout_secs),
    }) {
        FlushDue::Force
    } else {
        FlushDue::No
    }
}

/// Offset and length are multiples of 512.
pub open spec fn range_aligned(offset: u64, len: u64) -> bool {
    offset % 512 == 0 && len % 512 == 0
}

/// `e` says that the range leaves a device of `size` bytes, and it does.
pub open spec fn out_of_range(op: Op, offset: u64, len: u64, size: u64, e: BackendError) -> bool {
    if offset + len > u64::MAX {
        e == (BackendError::Overflow { op, offset, len })
    } else {
        offset + len > size && e == (BackendError::OutOfBounds { op, offset, len, size })
    }
}

/// What a change writes: the bytes of `src`, or `len` zeros.
pub open spec fn contents(src: Option<&Vec<u8>>, len: u64) -> Seq<u8> {
    match src {
        Some(v) => v@,
        None => backend::zeros(len as nat),
    }
}

fn has_elapsed(now: u64, since: u64, secs: u64) -> (r: bool)
    ensures
        r == elapsed(now, since, secs),
{
    assert(secs * NANOS_PER_SEC <= u64::MAX * 1_000_000_000) by (nonlinear_arith)
        requires
            secs <= u64::MAX,
            NANOS_PER_SEC == 1_000_000_000,
    ;
    let need: u128 = secs as u128 * NANOS_PER_SEC;
    if now >= since {
        (now - since) as u128 >= need
    } else {
        false
    }
}

impl<B: BlobBackend> BufferedBackend<B> {
    /// The inner backend.
    pub closed spec fn store(&self) -> B {
        self.inner
    }

    /// The configuration.
    pub closed spec fn settings(&self) -> BufferedConfig {
        self.config
    }

    /// Page `p` is in the buffer.
    pub closed spec fn resident(&self, p: u64) -> bool {
        self.pages@.contains_key(p)
    }

    /// Page `p` is in the buffer and was changed since it was flushed.
    pub closed spec fn dirty(&self, p: u64) -> bool {
        self.pages@.contains_key(p) && self.pages@[p].dirty
    }

    /// When page `p` was last changed.
    pub closed spec fn age(&self, p: u64) -> u64 {
        self.pages@[p].seq
    }

    /// The dirty pages.
    pub open spec fn dirty_set(&self) -> Set<u64> {
        Set::new(|p: u64| self.dirty(p))
    }

    /// The pages in the buffer.
    pub closed spec fn resident_set(&self) -> Set<u64> {
        self.pages@.dom()
    }

    /// The device size is known without asking the inner backend.
    pub closed spec fn size_known(&self) -> bool {
        self.dev_size != 0
    }

    /// The stamp of the latest change.
    pub closed spec fn clock(&self) -> u64 {
        self.seq_counter
    }

    /// The owner's clock and the times of the last write, the last flush and the
    /// first write.
    pub closed spec fn times(&self) -> (u64, Option<u64>, Option<u64>, Option<u64>) {
        (self.now, self.last_write, self.last_flush, self.first_write)
    }

    /// What a read of `[offset, offset + len)` asks of the inner backend from byte `pos`
    /// on: the piece of each page that is not in the buffer.
    pub open spec fn misses(&self, offset: int, len: int, pos: int) -> Seq<Request>
        decreases len - pos,
    {
        let ps = self.settings().page_size as int;
        let n = pages::piece(ps, offset, len, pos);
        if pos < 0 || pos >= len || n <= 0 {
            Seq::empty()
        } else {
            let at = offset + pos;
            (if self.resident((at / ps) as u64) {
                Seq::empty()
            } else {
                seq![Request::Read { offset: at as u64, len: n as u64 }]
            }) + self.misses(offset, len, pos + n)
        }
    }

    /// The request that writes page `p` back to the inner backend.
    pub open spec fn write_back(&self, p: u64) -> Request {
        let at = p * self.settings().page_size;
        let rest = self.bytes().len() - at;
        let len = if rest < self.settings().page_size {
            rest
        } else {
            self.settings().page_size as int
        };
        Request::Write { offset: at as u64, data: self.bytes().subrange(at, at + len) }
    }

    /// The requests that write the pages of `list` back, one after the other.
    pub open spec fn write_backs(&self, list: Seq<u64>) -> Seq<Request> {
        Seq::new(list.len(), |i: int| self.write_back(list[i]))
    }

    /// Everything but the requests made so far is the same.
    pub open spec fn untouched(&self, o: Self) -> bool {
        &&& self.store() == o.store()
        &&& self.settings() == o.settings()
        &&& self.bytes() == o.bytes()
        &&& self.resident_set() == o.resident_set()
        &&& self.dirty_set() == o.dirty_set()
        &&& self.clock() == o.clock()
        &&& self.times() == o.times()
        &&& self.size_known() == o.size_known()
        &&& self.own_faults() == o.own_faults()
        &&& forall|p: u64| #[trigger] self.age(p) == o.age(p)
        &&& forall|p: u64| #[trigger] self.page_data(p) == o.page_data(p)
    }

    /// How many fair requests were failed here.
    pub closed spec fn own_faults(&self) -> nat {
        self.declined@
    }

    spec fn ps(&self) -> int {
        self.config.page_size as int
    }

    spec fn len(&self) -> int {
        if self.dev_size != 0 {
            self.dev_size as int
        } else {
            self.inner.bytes().len() as int
        }
    }

    spec fn byte_at(&self, i: int) -> u8 {
        let p = (i / self.ps()) as u64;
        if self.pages@.contains_key(p) {
            self.pages@[p].data@[i % self.ps()]
        } else {
            self.inner.bytes()[i]
        }
    }

    spec fn page_ok(&self, p: u64, page: Page) -> bool {
        &&& page.data@.len() == self.ps()
        &&& 0 < page.seq <= self.seq_counter
        &&& p * self.ps() < self.len()
        &&& forall|j: int|
            0 <= j < self.ps() && p * self.ps() + j >= self.len() ==> #[trigger] page.data@[j] == 0
        &&& !page.dirty ==> forall|j: int|
            0 <= j < self.ps() && p * self.ps() + j < self.len() ==> #[trigger] page.data@[j]
                == self.inner.bytes()[p * self.ps() + j]
    }

    spec fn wf(&self) -> bool {
        &&& self.inner.valid()
        &&& self.config.ok()
        &&& self.config.page_size <= usize::MAX
        &&& self.dev_size != 0 ==> self.dev_size == self.inner.bytes().len()
        &&& self.dev_size == 0 ==> self.pages@ == Map::<u64, Page>::empty()
        &&& forall|p: u64| #[trigger] self.pages@.contains_key(p) ==> self.page_ok(p, self.pages@[p])
        &&& forall|p: u64, q: u64|
            #![trigger self.pages@[p], self.pages@[q]]
            self.pages@.contains_key(p) && self.pages@.contains_key(q) && p != q
                ==> self.pages@[p].seq != self.pages@[q].seq
    }

    /// A buffer over `inner`, with nothing in it.
    pub fn new(inner: B, config: BufferedConfig) -> (r: Result<Self, BackendError>)
        requires
            inner.valid(),
        ensures
            match r {
                Ok(b) => {
                    &&& config.ok()
                    &&& b.valid()
                    &&& b.store() == inner
                    &&& b.settings() == config
                    &&& b.bytes() == inner.bytes()
                    &&& b.resident_set() == Set::<u64>::empty()
                    &&& b.times() == (0u64, None::<u64>, None::<u64>, None::<u64>)
                    &&& b.requests() == Seq::<Request>::empty()
                },
                Err(e) => if config.page_size < 512 || config.page_size % 512 != 0 {
                    e matches BackendError::BadConfig { name, value } && name@ == "page_size"@ && value
                        == config.page_size
                } else if config.max_dirty_pages == 0 {
                    e matches BackendError::BadConfig { name, value } && name@ == "max_dirty_pages"@
                        && value == 0
                } else {
                    config.page_size > usize::MAX && e == (BackendError::TooLarge {
                        size: config.page_size,
                    })
                },
            },
    {
        if config.page_size < 512 || config.page_size % 512 != 0 {
            return Err(
                BackendError::BadConfig { name: "page_size".to_owned(), value: config.page_size },
            );
        }
        if config.max_dirty_pages == 0 {
            return Err(BackendError::BadConfig { name: "max_dirty_pages".to_owned(), value: 0 });
        }
        if config.page_size > usize::MAX as u64 {
            return Err(BackendError::TooLarge { size: config.page_size });
        }
        let b = BufferedBackend {
            inner,
            config,
            pages: BTreeMap::new(),
            seq_counter: 0,
            dev_size: 0,
            now: 0,
            first_write: None,
            last_write: None,
            last_flush: None,
            declined: Ghost(0),
            asked: Ghost(Seq::empty()),
        };
        assert(b.bytes() =~= inner.bytes());
        assert(b.resident_set() =~= Set::<u64>::empty());
        Ok(b)
    }

    /// The inner backend.
    pub fn inner(&self) -> (r: &B)
        ensures
            *r == self.store(),
    {
        &self.inner
    }

    /// Tell the buffer the owner's clock, in nanoseconds.
    pub fn advance(&mut self, now: u64)
        requires
            old(self).valid(),
        ensures
            final(self).valid(),
            final(self).times() == (
                now,
                old(self).times().1,
                old(self).times().2,
                old(self).times().3,
            ),
            final(self).requests() == old(self).requests(),
            final(self).bytes() == old(self).bytes(),
            final(self).durable() == old(self).durable(),
            final(self).keeps(*old(self)),
            final(self).dirty_set() == old(self).dirty_set(),
    {
        self.now = now;
        assert(self.bytes() =~= old(self).bytes());
        assert(self.dirty_set() =~= old(self).dirty_set());
    }

    /// The background flush that is due now.
    pub fn flush_due(&self) -> (r: FlushDue)
        requires
            self.valid(),
        ensures
            r == due(
                self.settings(),
                self.dirty_set() != Set::<u64>::empty(),
                self.times().0,
                self.times().3,
                self.times().1,
                self.times().2,
            ),
    {
        let list = self.dirty_list();
        proof {
            if list@.len() > 0 {
                assert(self.dirty_set().contains(list@[0]));
            } else {
                assert(self.dirty_set() =~= Set::<u64>::empty());
            }
        }
        if list.len() == 0 {
            return FlushDue::No;
        }
        let idle = self.config.idle_flush_secs > 0 && match self.last_write {
            Some(w) => has_elapsed(self.now, w, self.config.idle_flush_secs),
            None => false,
        };
        if idle {
            return FlushDue::Idle;
        }
        let force = self.config.force_flush_timeout_secs > 0 && match self.last_flush {
            Some(f) => has_elapsed(self.now, f, self.config.force_flush_timeout_secs),
            None => match self.first_write {
                Some(w) => has_elapsed(self.now, w, self.config.force_flush_timeout_secs),
                None => false,
            },
        };
        if force {
            FlushDue::Force
        } else {
            FlushDue::No
        }
    }

    /// The dirty pages, in increasing order.
    pub fn dirty_list(&self) -> (r: Vec<u64>)
        requires
            self.valid(),
        ensures
            maps::increasing(r@),
            r@.to_set() == self.dirty_set(),
            r@.len() == self.dirty_set().len(),
            self.dirty_set().finite(),
    {
        let keys = maps::sorted_keys(&self.pages);
        let mut out: Vec<u64> = Vec::new();
        let mut i: usize = 0;
        while i < keys.len()
            invariant
                i <= keys@.len(),
                maps::increasing(keys@),
                maps::increasing(out@),
                forall|k: u64| #[trigger] keys@.contains(k) <==> self.pages@.contains_key(k),
                forall|k: u64| #[trigger]
                    out@.contains(k) <==> exists|j: int| 0 <= j < i && keys@[j] == k && self.dirty(k),
                out@.len() > 0 ==> i > 0 && out@.last() <= keys@[i - 1],
            decreases keys@.len() - i,
        {
            let k: u64 = keys[i];
            assert(keys@.contains(k));
            let ghost before = out@;
            match self.pages.get(&k) {
                Some(page) => {
                    if page.dirty {
                        out.push(k);
                    }
                },
                None => {},
            }
            proof {
                assert forall|x: u64| #[trigger]
                    out@.contains(x) <==> exists|j: int| 0 <= j < i + 1 && keys@[j] == x && self.dirty(x) by {
                    if out@.contains(x) {
                        let n = choose|n: int| 0 <= n < out@.len() && out@[n] == x;
                        if n < before.len() {
                            assert(before.contains(x));
                        } else {
                            assert(keys@[i as int] == x);
                        }
                    }
                    if exists|j: int| 0 <= j < i + 1 && keys@[j] == x && self.dirty(x) {
                        let j = choose|j: int| 0 <= j < i + 1 && keys@[j] == x && self.dirty(x);
                        if j < i {
                            assert(before.contains(x));
                            let n = choose|n: int| 0 <= n < before.len() && before[n] == x;
                            assert(out@[n] == x);
                        } else {
                            assert(out@.last() == x);
                        }
                    }
                }
            }
            i = i + 1;
        }
        proof {
            assert forall|p: u64| #[trigger] out@.to_set().contains(p) <==> self.dirty_set().contains(p) by {
                if self.dirty(p) {
                    assert(keys@.contains(p));
                    let j = choose|j: int| 0 <= j < keys@.len() && keys@[j] == p;
                    assert(out@.contains(p));
                }
            }
            assert(out@.to_set() =~= self.dirty_set());
            assert(out@.no_duplicates());
            out@.unique_seq_to_set();
        }
        out
    }

    /// The device size, asked of the inner backend the first time.
    fn known_size(&mut self) -> (r: Result<u64, BackendError>)
        requires
            old(self).wf(),
        ensures
            final(self).wf(),
            final(self).bytes() == old(self).bytes(),
            final(self).durable() == old(self).durable(),
            final(self).keeps(*old(self)),
            final(self).pages == old(self).pages,
            final(self).dirty_set() == old(self).dirty_set(),
            final(self).config == old(self).config,
            final(self).seq_counter == old(self).seq_counter,
            final(self).times() == old(self).times(),
            old(self).size_known() ==> r is Ok && *final(self) == *old(self),
            final(self).store().faults() >= old(self).store().faults(),
            final(self).own_faults() == old(self).own_faults(),
            r is Err ==> final(self).store().faults() > old(self).store().faults(),
            r matches Ok(n) ==> n == final(self).bytes().len() && (n > 0 ==> final(self).dev_size == n),
            final(self).inner.bytes() == old(self).inner.bytes(),
            forall|i: int, b: u8| #[trigger]
                final(self).inner.afloat(i, b) ==> old(self).inner.afloat(i, b),
            final(self).requests() == old(self).requests(),
            backend::drifted(
                final(self).store(),
                old(self).store(),
                old(self).bytes(),
                old(self).bytes(),
            ),
    {
        if self.dev_size != 0 {
            return Ok(self.dev_size);
        }
        match self.inner.size() {
            Ok(n) => {
                self.dev_size = n;
                assert(self.bytes() =~= old(self).bytes());
                assert(self.dirty_set() =~= old(self).dirty_set());
                Ok(n)
            },
            Err(e) => {
                assert(self.bytes() =~= old(self).bytes());
                assert(self.dirty_set() =~= old(self).dirty_set());
                Err(e)
            },
        }
    }

    /// Bring page `idx` into the buffer.
    fn ensure_resident(&mut self, idx: u64) -> (r: Result<(), BackendError>)
        requires
            old(self).wf(),
            old(self).dev_size != 0,
            idx * old(self).ps() < old(self).dev_size,
        ensures
            final(self).wf(),
            final(self).bytes() == old(self).bytes(),
            final(self).durable() == old(self).durable(),
            final(self).store().faults() >= old(self).store().faults(),
            final(self).own_faults() == old(self).own_faults(),
            r is Err && old(self).dev_size % 512 == 0 ==> final(self).store().faults()
                > old(self).store().faults() || final(self).seq_counter == u64::MAX,
            final(self).inner.bytes() == old(self).inner.bytes(),
            final(self).keeps(*old(self)),
            final(self).config == old(self).config,
            final(self).dev_size == old(self).dev_size,
            final(self).times() == old(self).times(),
            old(self).seq_counter <= final(self).seq_counter <= old(self).seq_counter + 1,
            old(self).resident(idx) ==> r is Ok && *final(self) == *old(self),
            r is Ok ==> final(self).resident(idx),
            final(self).requests() == old(self).requests(),
            backend::drifted(
                final(self).store(),
                old(self).store(),
                old(self).bytes(),
                old(self).bytes(),
            ),
            forall|p: u64| #[trigger] final(self).dirty(p) == old(self).dirty(p),
            forall|p: u64| old(self).resident(p) ==> #[trigger] final(self).resident(p),
            forall|p: u64| #[trigger] final(self).resident(p) ==> old(self).resident(p) || p == idx,
    {
        if self.pages.contains_key(&idx) {
            return Ok(());
        }
        let page_size: u64 = self.config.page_size;
        let offset: u64 = idx * page_size;
        let rest: u64 = self.dev_size - offset;
        let read_len: u64 = if rest < page_size {
            rest
        } else {
            page_size
        };
        proof {
            pages::lemma_page_aligned(page_size as int, idx as int);
        }
        let data = match self.inner.read(offset, read_len) {
            Ok(data) => data,
            Err(e) => {
                assert(self.bytes() =~= old(self).bytes());
                return Err(e);
            },
        };
        assert(self.bytes() =~= old(self).bytes());
        if data.len() as u64 != read_len {
            return Err(
                BackendError::ShortRead { offset, expected: read_len, got: data.len() as u64 },
            );
        }
        if self.seq_counter == u64::MAX {
            return Err(BackendError::ClockExhausted);
        }
        let mut buf = pages::zero_bytes(page_size as usize);
        pages::put_bytes(&mut buf, 0, &data, 0, data.len());
        self.seq_counter = self.seq_counter + 1;
        let page = Page { data: buf, dirty: false, seq: self.seq_counter };
        let ghost before = *self;
        self.pages.insert(idx, page);
        proof {
            let ps = self.ps();
            assert forall|j: int| 0 <= j < ps && idx * ps + j < self.len() implies #[trigger] page.data@[j]
                == self.inner.bytes()[idx * ps + j] by {
                assert(data@[j] == self.inner.bytes().subrange(offset as int, offset + read_len)[j]);
            }
            assert(self.page_ok(idx, page));
            assert forall|i: int| 0 <= i < self.len() implies #[trigger] self.byte_at(i) == old(self).byte_at(i) by {
                pages::lemma_split(ps, i);
                let p = (i / ps) as u64;
                if p == idx {
                    assert(page.data@[i % ps] == self.inner.bytes()[idx * ps + i % ps]);
                }
            }
            assert(self.bytes() =~= old(self).bytes());
        }
        Ok(())
    }

    /// Note a request.
    fn note(&mut self, Ghost(request): Ghost<Request>)
        ensures
            final(self).untouched(*old(self)),
            old(self).wf() ==> final(self).wf(),
            final(self).durable() == old(self).durable(),
            final(self).keeps(*old(self)),
            final(self).inner == old(self).inner,
            final(self).pages == old(self).pages,
            final(self).config == old(self).config,
            final(self).dev_size == old(self).dev_size,
            final(self).seq_counter == old(self).seq_counter,
            final(self).declined == old(self).declined,
            final(self).asked@ == old(self).asked@.push(request),
            forall|p: u64| #[trigger] final(self).dirty(p) == old(self).dirty(p),
    {
        let ghost asked = self.asked@.push(request);
        self.asked = Ghost(asked);
        assert(self.bytes() =~= old(self).bytes());
        assert(self.dirty_set() =~= old(self).dirty_set());
    }

    /// Count a fair request that is failed here.
    fn decline(&mut self)
        requires
            old(self).wf(),
        ensures
            final(self).wf(),
            final(self).bytes() == old(self).bytes(),
            final(self).durable() == old(self).durable(),
            final(self).keeps(*old(self)),
            final(self).inner == old(self).inner,
            final(self).pages == old(self).pages,
            final(self).config == old(self).config,
            final(self).dev_size == old(self).dev_size,
            final(self).seq_counter == old(self).seq_counter,
            final(self).times() == old(self).times(),
            final(self).own_faults() == old(self).own_faults() + 1,
            final(self).requests() == old(self).requests(),
            forall|p: u64| #[trigger] final(self).dirty(p) == old(self).dirty(p),
    {
        let ghost n = self.declined@ + 1;
        self.declined = Ghost(n);
        assert(self.bytes() =~= old(self).bytes());
    }

    /// Overwrite `chunk.len()` bytes of the resident page `idx` at `at`.
    fn store_chunk(&mut self, idx: u64, at: usize, chunk: &Vec<u8>)
        requires
            old(self).wf(),
            old(self).resident(idx),
            old(self).seq_counter < u64::MAX,
            at + chunk@.len() <= old(self).ps(),
            idx * old(self).ps() + at + chunk@.len() <= old(self).dev_size,
        ensures
            final(self).wf(),
            final(self).bytes() == backend::splice(
                old(self).bytes(),
                idx * old(self).ps() + at,
                chunk@,
            ),
            final(self).durable() == old(self).durable(),
            final(self).keeps(*old(self)),
            final(self).inner == old(self).inner,
            final(self).own_faults() == old(self).own_faults(),
            final(self).config == old(self).config,
            final(self).dev_size == old(self).dev_size,
            final(self).times() == (
                old(self).now,
                Some(old(self).now),
                old(self).last_flush,
                first_of(old(self).first_write, old(self).now),
            ),
            final(self).requests() == old(self).requests(),
            final(self).seq_counter == old(self).seq_counter + 1,
            forall|p: u64| #[trigger] final(self).dirty(p) == (old(self).dirty(p) || p == idx),
            forall|p: u64| #[trigger] final(self).resident(p) == old(self).resident(p),
    {
        match self.pages.remove(&idx) {
            Some(taken) => {
                let mut page = taken;
                let ghost was = page.data@;
                pages::put_bytes(&mut page.data, at, chunk, 0, chunk.len());
                assert(chunk@.subrange(0, chunk@.len() as int) == chunk@);
                self.seq_counter = self.seq_counter + 1;
                page.dirty = true;
                page.seq = self.seq_counter;
                self.pages.insert(idx, page);
                self.last_write = Some(self.now);
                if self.first_write.is_none() {
                    self.first_write = Some(self.now);
                }
                proof {
                    let ps = self.ps();
                    let start = idx * ps + at;
                    assert(old(self).page_ok(idx, old(self).pages@[idx]));
                    assert(self.page_ok(idx, page));
                    assert forall|p: u64| #[trigger] self.pages@.contains_key(p) implies self.page_ok(
                        p,
                        self.pages@[p],
                    ) by {
                        if p != idx {
                            assert(old(self).pages@.contains_key(p));
                            assert(old(self).page_ok(p, old(self).pages@[p]));
                        }
                    }
                    assert forall|i: int| 0 <= i < self.len() implies #[trigger] self.byte_at(i)
                        == backend::splice(old(self).bytes(), start, chunk@)[i] by {
                        pages::lemma_split(ps, i);
                        let p = (i / ps) as u64;
                        if p == idx {
                            assert(i == idx * ps + i % ps);
                        } else if p < idx {
                            pages::lemma_page_order(ps, p as int, idx as int);
                        } else {
                            pages::lemma_page_order(ps, idx as int, p as int);
                        }
                    }
                    assert(self.bytes() =~= backend::splice(old(self).bytes(), start, chunk@));
                }
            },
            None => {},
        }
    }

    /// The bytes of page `p` that the device has.
    spec fn clipped(&self, p: u64) -> int {
        if self.dev_size - p * self.ps() < self.ps() {
            self.dev_size - p * self.ps()
        } else {
            self.ps()
        }
    }

    /// The snapshot was taken of this buffer, whose device has kept its size; as
    /// long as the page has not been changed since, it holds the page's bytes.
    pub closed spec fn took(&self, s: PageSnapshot) -> bool {
        &&& s.seq <= self.seq_counter
        &&& s.offset == s.page * self.ps()
        &&& s.offset < self.dev_size
        &&& s.data@.len() == self.clipped(s.page)
        &&& self.resident(s.page) && self.age(s.page) == s.seq ==> s.data@
            == self.page_data(s.page).take(s.data@.len() as int)
    }

    /// Copy page `idx` for a flush, if it is dirty. The buffer can be used while the
    /// copy is on its way to the inner backend.
    pub fn begin_flush(&self, idx: u64) -> (r: Option<PageSnapshot>)
        requires
            self.valid(),
        ensures
            match r {
                None => !self.dirty(idx),
                Some(s) => {
                    &&& self.dirty(idx)
                    &&& s.of_page() == idx
                    &&& s.stamp() == self.age(idx)
                    &&& self.took(s)
                    &&& idx * self.settings().page_size + s.bytes().len() <= self.bytes().len()
                    &&& s.bytes() == self.bytes().subrange(
                        idx * self.settings().page_size,
                        idx * self.settings().page_size + s.bytes().len(),
                    )
                    &&& s.bytes().len() == self.settings().page_size || idx
                        * self.settings().page_size + s.bytes().len() == self.bytes().len()
                },
            },
    {
        match self.pages.get(&idx) {
            Some(page) => {
                if !page.dirty {
                    return None;
                }
                proof {
                    assert(self.page_ok(idx, self.pages@[idx]));
                }
                let page_size: u64 = self.config.page_size;
                let offset: u64 = idx * page_size;
                let rest: u64 = self.dev_size - offset;
                let write_len: usize = if rest < page_size {
                    rest as usize
                } else {
                    page_size as usize
                };
                let data = pages::copy_range(&page.data, 0, write_len);
                let s = PageSnapshot { page: idx, seq: page.seq, offset, data };
                proof {
                    let ps = self.ps();
                    assert(s.data@ =~= self.page_data(idx).take(write_len as int));
                    assert forall|j: int| 0 <= j < write_len implies #[trigger] s.data@[j]
                        == self.bytes()[offset + j] by {
                        pages::lemma_in_page(ps, idx as int, j);
                        assert(self.byte_at(offset + j) == page.data@[j]);
                    }
                    assert(s.data@ =~= self.bytes().subrange(
                        offset as int,
                        offset + write_len as int,
                    ));
                }
                Some(s)
            },
            None => None,
        }
    }

    /// The copy reaches the inner backend: write it, and mark the page clean, unless
    /// the page has been changed since the copy was made, in which case it stays
    /// dirty, so that the change is flushed another time. A page that is clean by now
    /// has been flushed meanwhile, and is left alone.
    pub fn end_flush(&mut self, s: &PageSnapshot) -> (r: Result<(), BackendError>)
        requires
            old(self).valid(),
            old(self).took(*s),
        ensures
            final(self).valid(),
            final(self).bytes() == old(self).bytes(),
            final(self).keeps(*old(self)),
            final(self).store().faults() >= old(self).store().faults(),
            final(self).own_faults() == old(self).own_faults(),
            r is Err && old(self).bytes().len() % 512 == 0 ==> final(self).store().faults()
                > old(self).store().faults(),
            final(self).size_known() == old(self).size_known(),
            final(self).clock() == old(self).clock(),
            final(self).times() == old(self).times(),
            forall|p: u64| #[trigger]
                final(self).dirty(p) == (old(self).dirty(p) && !(p == s.of_page() && r is Ok
                    && old(self).age(p) == s.stamp())),
            forall|p: u64| #[trigger] final(self).resident(p) == old(self).resident(p),
            forall|p: u64| old(self).resident(p) ==> #[trigger] final(self).age(p) == old(self).age(p),
            !old(self).dirty(s.of_page()) ==> r is Ok && *final(self) == *old(self),
            final(self).requests() == old(self).requests(),
            old(self).dirty(s.of_page()) ==> final(self).store().requests()
                == old(self).store().requests().push(
                (Request::Write {
                    offset: (s.of_page() * old(self).settings().page_size) as u64,
                    data: s.bytes(),
                }),
            ),
            backend::drifted(
                final(self).store(),
                old(self).store(),
                backend::splice(
                    old(self).bytes(),
                    s.of_page() * old(self).settings().page_size,
                    s.bytes(),
                ),
                backend::splice(
                    old(self).bytes(),
                    s.of_page() * old(self).settings().page_size,
                    s.bytes(),
                ),
            ),
    {
        let idx: u64 = s.page;
        let fresh: bool = match self.pages.get(&idx) {
            Some(page) => {
                if !page.dirty {
                    return Ok(());
                }
                page.seq == s.seq
            },
            None => {
                return Ok(());
            },
        };
        let ghost ps = self.ps();
        let ghost offset = s.offset as int;
        let ghost data = s.data@;
        proof {
            assert(self.page_ok(idx, self.pages@[idx]));
            pages::lemma_page_aligned(ps, idx as int);
        }
        let r = self.inner.write(s.offset, &s.data);
        proof {
            let goal = backend::splice(old(self).inner.bytes(), offset, data);
            backend::a_change_drifts(self.inner, old(self).inner, goal);
            let shown = backend::splice(old(self).bytes(), offset, data);
            assert(backend::drifted(self.inner, old(self).inner, shown, shown)) by {
                assert forall|i: int, b: u8|
                    0 <= i < old(self).inner.bytes().len() && #[trigger] backend::may_hold(
                        self.inner,
                        i,
                        b,
                    ) implies backend::may_hold(old(self).inner, i, b) || b == shown[i] by {
                    if b == goal[i] && !(offset <= i < offset + data.len()) {
                        assert(b == old(self).inner.bytes()[i]);
                    }
                }
            }
            assert forall|p: u64| #[trigger] self.pages@.contains_key(p) implies self.page_ok(
                p,
                self.pages@[p],
            ) by {
                assert(old(self).page_ok(p, old(self).pages@[p]));
                if p < idx {
                    pages::lemma_page_order(ps, p as int, idx as int);
                } else if p > idx {
                    pages::lemma_page_order(ps, idx as int, p as int);
                }
            }
            assert forall|i: int| 0 <= i < self.len() implies #[trigger] self.byte_at(i) == old(self).byte_at(i) by {
                pages::lemma_split(ps, i);
                let p = (i / ps) as u64;
                if p < idx {
                    pages::lemma_page_order(ps, p as int, idx as int);
                } else if p > idx {
                    pages::lemma_page_order(ps, idx as int, p as int);
                }
            }
            assert(self.bytes() =~= old(self).bytes());
        }
        match r {
            Ok(()) => {
                if !fresh {
                    return Ok(());
                }
                let ghost written = *self;
                match self.pages.remove(&idx) {
                    Some(taken) => {
                        let mut page = taken;
                        page.dirty = false;
                        self.pages.insert(idx, page);
                        proof {
                            assert(self.page_ok(idx, page)) by {
                                assert forall|j: int| 0 <= j < ps && idx * ps + j < self.len()
                                    implies #[trigger] page.data@[j] == self.inner.bytes()[idx * ps + j] by {
                                    assert(data[j] == page.data@[j]);
                                }
                            }
                            assert forall|p: u64| #[trigger] self.pages@.contains_key(p)
                                implies self.page_ok(p, self.pages@[p]) by {
                                if p != idx {
                                    assert(written.pages@.contains_key(p));
                                    assert(written.page_ok(p, written.pages@[p]));
                                }
                            }
                            assert forall|i: int| 0 <= i < self.len() implies #[trigger] self.byte_at(
                                i,
                            ) == written.byte_at(i) by {}
                            assert(self.bytes() =~= written.bytes());
                        }
                    },
                    None => {},
                }
                Ok(())
            },
            Err(e) => Err(e),
        }
    }

    /// Write page `idx` to the inner backend, if it is dirty, and mark it clean.
    fn flush_page(&mut self, idx: u64) -> (r: Result<(), BackendError>)
        requires
            old(self).wf(),
        ensures
            final(self).wf(),
            final(self).bytes() == old(self).bytes(),
            final(self).keeps(*old(self)),
            final(self).store().faults() >= old(self).store().faults(),
            final(self).own_faults() == old(self).own_faults(),
            r is Err && old(self).bytes().len() % 512 == 0 ==> final(self).store().faults()
                > old(self).store().faults(),
            final(self).config == old(self).config,
            final(self).dev_size == old(self).dev_size,
            final(self).seq_counter == old(self).seq_counter,
            final(self).times() == old(self).times(),
            forall|p: u64| #[trigger]
                final(self).dirty(p) == (old(self).dirty(p) && !(p == idx && r is Ok)),
            forall|p: u64| #[trigger] final(self).resident(p) == old(self).resident(p),
            forall|p: u64| old(self).resident(p) ==> #[trigger] final(self).age(p) == old(self).age(p),
            !old(self).dirty(idx) ==> r is Ok && *final(self) == *old(self),
            final(self).requests() == old(self).requests(),
            old(self).dirty(idx) ==> final(self).store().requests()
                == old(self).store().requests().push(old(self).write_back(idx)),
            backend::drifted(
                final(self).store(),
                old(self).store(),
                old(self).bytes(),
                old(self).bytes(),
            ),
    {
        match self.begin_flush(idx) {
            Some(s) => {
                proof {
                    let at = idx * self.ps();
                    assert(backend::splice(self.bytes(), at, s.bytes()) =~= self.bytes()) by {
                        assert forall|i: int| at <= i < at + s.bytes().len() implies s.bytes()[i - at]
                            == #[trigger] self.bytes()[i] by {}
                    }
                }
                let r = self.end_flush(&s);
                assert(self.bytes().len() == old(self).bytes().len());
                r
            },
            None => Ok(()),
        }
    }

    /// The dirty page among `list` that was changed least recently.
    fn oldest(&self, list: &Vec<u64>) -> (r: u64)
        requires
            self.wf(),
            list@.len() > 0,
            forall|i: int| 0 <= i < list@.len() ==> self.dirty(#[trigger] list@[i]),
        ensures
            list@.contains(r),
            forall|i: int| 0 <= i < list@.len() ==> self.age(r) <= self.age(#[trigger] list@[i]),
    {
        let mut best: u64 = list[0];
        let mut age: u64 = match self.pages.get(&best) {
            Some(p) => p.seq,
            None => 0,
        };
        assert(self.dirty(list@[0]));
        let mut i: usize = 1;
        while i < list.len()
            invariant
                1 <= i <= list@.len(),
                self.wf(),
                forall|i: int| 0 <= i < list@.len() ==> self.dirty(#[trigger] list@[i]),
                list@.contains(best),
                age == self.age(best),
                forall|j: int| 0 <= j < i ==> self.age(best) <= self.age(#[trigger] list@[j]),
            decreases list@.len() - i,
        {
            let p: u64 = list[i];
            assert(self.dirty(list@[i as int]));
            let a: u64 = match self.pages.get(&p) {
                Some(page) => page.seq,
                None => 0,
            };
            if a < age {
                best = p;
                age = a;
            }
            i = i + 1;
        }
        best
    }

    /// While more than `max_dirty_pages` pages are dirty, flush the oldest.
    pub fn enforce_dirty_limit(&mut self) -> (r: Result<(), BackendError>)
        requires
            old(self).valid(),
        ensures
            final(self).valid(),
            final(self).bytes() == old(self).bytes(),
            final(self).keeps(*old(self)),
            final(self).store().faults() >= old(self).store().faults(),
            final(self).own_faults() == old(self).own_faults(),
            r is Err && old(self).bytes().len() % 512 == 0 ==> final(self).store().faults()
                > old(self).store().faults(),
            final(self).settings() == old(self).settings(),
            final(self).size_known() == old(self).size_known(),
            final(self).clock() == old(self).clock(),
            final(self).times() == old(self).times(),
            final(self).requests() == old(self).requests(),
            old(self).within_limit() ==> r is Ok && *final(self) == *old(self),
            r is Ok ==> final(self).within_limit(),
            r is Ok && !old(self).within_limit() ==> final(self).dirty_set().len()
                == old(self).settings().max_dirty_pages,
            final(self).flushed_oldest_of(*old(self)),
            backend::drifted(
                final(self).store(),
                old(self).store(),
                old(self).bytes(),
                old(self).bytes(),
            ),
    {
        loop
            invariant
                self.wf(),
                self.bytes() == old(self).bytes(),
                self.inner.faults() >= old(self).inner.faults(),
                self.declined == old(self).declined,
                self.config == old(self).config,
                self.dev_size == old(self).dev_size,
                self.seq_counter == old(self).seq_counter,
                self.times() == old(self).times(),
                old(self).within_limit() ==> *self == *old(self),
                self.keeps(*old(self)),
                self.flushed_oldest_of(*old(self)),
                !old(self).within_limit() ==> self.dirty_set().len() >= self.config.max_dirty_pages,
                self.asked == old(self).asked,
                old(self).wf(),
                backend::drifted(self.inner, old(self).inner, old(self).bytes(), old(self).bytes()),
            decreases self.dirty_set().len(),
        {
            let list = self.dirty_list();
            if list.len() <= self.config.max_dirty_pages {
                return Ok(());
            }
            proof {
                assert forall|i: int| 0 <= i < list@.len() implies self.dirty(#[trigger] list@[i]) by {
                    assert(list@.to_set().contains(list@[i]));
                }
            }
            let victim = self.oldest(&list);
            let ghost before = *self;
            proof {
                assert(list@.to_set().contains(victim));
                assert forall|q: u64| #[trigger] before.dirty(q) implies before.age(victim)
                    <= before.age(q) by {
                    assert(before.dirty_set().contains(q));
                    let i = choose|i: int| 0 <= i < list@.len() && list@[i] == q;
                    assert(list@[i] == q);
                }
            }
            let r = self.flush_page(victim);
            proof {
                before.lemma_len();
                old(self).lemma_len();
                backend::drifts_add_up(
                    self.inner,
                    before.inner,
                    old(self).inner,
                    before.bytes(),
                    old(self).bytes(),
                    old(self).bytes(),
                );
                if r is Ok {
                    assert(self.dirty_set() =~= before.dirty_set().remove(victim));
                }
                assert(self.flushed_oldest_of(*old(self))) by {
                    assert forall|p: u64, q: u64|
                        old(self).dirty(p) && !self.dirty(p) && self.dirty(q) implies old(self).age(p)
                        < old(self).age(q) by {
                        assert(before.dirty(q));
                        if before.dirty(p) {
                            assert(p == victim);
                            assert(before.age(p) <= before.age(q));
                            assert(before.pages@[p].seq != before.pages@[q].seq);
                        }
                    }
                }
            }
            match r {
                Ok(()) => {},
                Err(e) => {
                    return Err(e);
                },
            }
        }
    }

    /// What the buffer holds of page `p`.
    pub closed spec fn page_data(&self, p: u64) -> Seq<u8> {
        self.pages@[p].data@
    }

    /// A page of `self` is the page that it was `before`, or it has been stamped
    /// since; so a page with the same stamp has the same bytes.
    pub open spec fn keeps(&self, before: Self) -> bool {
        &&& self.settings() == before.settings()
        &&& before.clock() <= self.clock()
        &&& forall|p: u64| #[trigger]
            self.resident(p) ==> self.age(p) > before.clock() || (before.resident(p) && self.age(p)
                == before.age(p) && self.page_data(p) == before.page_data(p))
    }

    /// Every page of `[offset, offset + len)` is in the buffer.
    pub open spec fn holds(&self, offset: int, len: int) -> bool {
        forall|i: int|
            offset <= i < offset + len ==> #[trigger] self.resident(
                (i / self.settings().page_size as int) as u64,
            )
    }

    /// A change of `len` bytes to resident pages needs no flush and leaves the
    /// clock running.
    pub open spec fn roomy(&self, len: int) -> bool {
        self.resident_set().len() <= self.settings().max_dirty_pages && self.clock() + len <= u64::MAX
    }

    /// A change of `[offset, offset + len)` needs no flush.
    pub open spec fn spare(&self, offset: int, len: int) -> bool {
        self.dirty_set().len() + pages::page_span(self.settings().page_size as int, offset, len)
            <= self.settings().max_dirty_pages
    }

    /// After a change of `[offset, offset + len)`, complete if `done`, only the pages
    /// of that range are newly dirty. Where that needed no flush, the inner backend
    /// is as before, no page was flushed, and all those pages are dirty if the
    /// change is complete.
    pub open spec fn buffers(&self, before: Self, offset: int, len: int, done: bool) -> bool {
        &&& forall|p: u64| #[trigger]
            self.dirty(p) ==> before.dirty(p) || pages::covers(
                before.settings().page_size as int,
                offset,
                len,
                p as int,
            )
        &&& before.spare(offset, len) ==> {
            &&& self.store().bytes() == before.store().bytes()
            &&& forall|p: u64| #[trigger] before.dirty(p) ==> self.dirty(p)
            &&& done ==> forall|p: u64|
                pages::covers(before.settings().page_size as int, offset, len, p as int)
                    ==> #[trigger] self.dirty(p)
        }
    }

    /// Only pages of `[offset, offset + len)` have come into the buffer since `before`.
    pub open spec fn loads(&self, before: Self, offset: int, len: int) -> bool {
        forall|p: u64| #[trigger]
            self.resident(p) ==> before.resident(p) || pages::covers(
                before.settings().page_size as int,
                offset,
                len,
                p as int,
            )
    }

    /// With no dirty page, the inner backend holds every byte.
    proof fn lemma_clean_is_inner(&self)
        requires
            self.wf(),
            self.dirty_set() == Set::<u64>::empty(),
        ensures
            self.bytes() == self.inner.bytes(),
    {
        assert forall|i: int| 0 <= i < self.len() implies #[trigger] self.byte_at(i)
            == self.inner.bytes()[i] by {
            pages::lemma_split(self.ps(), i);
            let p = (i / self.ps()) as u64;
            if self.pages@.contains_key(p) {
                assert(self.page_ok(p, self.pages@[p]));
                assert(!self.dirty_set().contains(p));
                assert(!self.dirty(p));
                assert(self.pages@[p].data@[i % self.ps()] == self.inner.bytes()[p * self.ps() + i
                    % self.ps()]);
            }
        }
        assert(self.bytes() =~= self.inner.bytes());
    }

    /// The inner backend has the device's size.
    proof fn lemma_len(&self)
        requires
            self.wf(),
        ensures
            self.bytes().len() == self.inner.bytes().len(),
    {
    }

    /// Dirty pages are resident pages.
    proof fn lemma_dirty_resident(&self)
        ensures
            self.dirty_set().subset_of(self.resident_set()),
            self.resident_set().finite(),
            self.dirty_set().finite(),
            self.dirty_set().len() <= self.resident_set().len(),
    {
        assert(self.dirty_set().subset_of(self.pages@.dom()));
        vstd::set_lib::lemma_len_subset(self.dirty_set(), self.pages@.dom());
    }

    /// `self` is `o` after the first `pos` bytes of a change of `offset` on to `all`.
    #[verifier::opaque]
    spec fn partway(&self, o: Self, offset: int, pos: int, all: Seq<u8>) -> bool {
        let len = all.len() as int;
        let ps = o.ps();
        let easy = o.holds(offset, len) && o.roomy(len);
        let calm = o.spare(offset, len);
        &&& o.wf()
        &&& self.wf()
        &&& self.config == o.config
        &&& self.inner.faults() >= o.inner.faults()
        &&& self.declined == o.declined
        &&& self.asked == o.asked
        &&& self.dev_size == o.dev_size
        &&& self.dev_size != 0
        &&& offset + len <= self.dev_size
        &&& self.bytes() == backend::splice(o.bytes(), offset, all.take(pos))
        &&& self.keeps(o)
        &&& self.seq_counter <= o.seq_counter + 2 * pos
        &&& self.times().0 == o.times().0
        &&& pos == 0 ==> self.times().3 == o.times().3
        &&& pos > 0 ==> self.times().1 == Some(o.times().0)
        &&& pos > 0 ==> self.times().3 == first_of(o.times().3, o.times().0)
        &&& pos > 0 ==> self.within_limit()
        &&& backend::drifted(self.inner, o.inner, o.bytes(), backend::splice(o.bytes(), offset, all))
        &&& easy ==> self.inner == o.inner
        &&& easy ==> self.resident_set() == o.resident_set() && self.seq_counter <= o.seq_counter + pos
        &&& 0 < pos < len ==> (offset + pos) % ps == 0
        &&& forall|p: u64| #[trigger]
            self.resident(p) ==> o.resident(p) || pages::covers(ps, offset, pos, p as int)
        &&& forall|p: u64| #[trigger]
            self.dirty(p) ==> o.dirty(p) || pages::covers(ps, offset, pos, p as int)
        &&& calm ==> self.inner.bytes() == o.inner.bytes()
        &&& calm ==> forall|p: u64|
            o.dirty(p) || pages::covers(ps, offset, pos, p as int) ==> #[trigger] self.dirty(p)
        &&& calm ==> self.dirty_set().len() <= o.dirty_set().len() + pages::page_span(ps, offset, pos)
    }

    /// Write the next piece of `src`, or of zeros, over `[offset, offset + len)`, of
    /// which `pos` bytes are done, up to the end of its page, and return the piece's
    /// length.
    #[verifier::rlimit(40)]
    fn put_next(
        &mut self,
        offset: u64,
        len: u64,
        pos: u64,
        src: Option<&Vec<u8>>,
        Ghost(o): Ghost<Self>,
    ) -> (r: Result<u64, BackendError>)
        requires
            pos < len,
            src matches Some(v) ==> v@.len() == len,
            old(self).partway(o, offset as int, pos as int, contents(src, len)),
        ensures
            r matches Ok(n) ==> 0 < n <= len - pos && final(self).partway(
                o,
                offset as int,
                pos + n,
                contents(src, len),
            ),
            r is Err ==> {
                &&& final(self).wf()
                &&& final(self).keeps(o)
                &&& final(self).store().faults() >= o.store().faults()
                &&& final(self).own_faults() == o.own_faults()
                &&& final(self).asked == o.asked
                &&& final(self).seq_counter <= o.seq_counter + 2 * len
                &&& o.dev_size % 512 == 0 ==> final(self).store().faults() > o.store().faults()
                    || final(self).seq_counter == u64::MAX
                &&& backend::torn(
                    final(self).bytes(),
                    o.bytes(),
                    backend::splice(o.bytes(), offset as int, contents(src, len)),
                )
                &&& !o.holds(offset as int, len as int) || !o.roomy(len as int)
                &&& final(self).buffers(o, offset as int, len as int, false)
                &&& final(self).loads(o, offset as int, len as int)
                &&& backend::drifted(
                    final(self).store(),
                    o.store(),
                    o.bytes(),
                    backend::splice(o.bytes(), offset as int, contents(src, len)),
                )
            },
    {
        let page_size: u64 = self.config.page_size;
        let ghost all = contents(src, len);
        let ghost goal = backend::splice(o.bytes(), offset as int, all);
        let ghost calm = o.spare(offset as int, len as int);
        let ghost easy = o.holds(offset as int, len as int) && o.roomy(len as int);
        proof {
            reveal(BufferedBackend::partway);
        }
        let at: u64 = offset + pos;
        let idx: u64 = at / page_size;
        let in_page: u64 = at % page_size;
        proof {
            pages::lemma_split(page_size as int, at as int);
        }
        let chunk: u64 = if page_size - in_page < len - pos {
            page_size - in_page
        } else {
            len - pos
        };
        let ghost start = *self;
        proof {
            pages::lemma_next_page(page_size as int, offset as int, pos as int, chunk as int);
            pages::lemma_next_page(page_size as int, offset as int, pos as int, len - pos);
            if pos + chunk < len {
                pages::lemma_next_page(
                    page_size as int,
                    offset as int,
                    pos + chunk,
                    len - pos - chunk,
                );
                assert(at + chunk == (idx + 1) * page_size) by (nonlinear_arith)
                    requires
                        at == idx * page_size + in_page,
                        chunk == page_size - in_page,
                ;
                pages::lemma_in_page(page_size as int, idx + 1, 0);
            }
            if easy {
                assert(o.resident((at as int / page_size as int) as u64));
                assert(o.resident_set().contains(idx));
                assert(self.resident(idx));
            }
        }
        let resident = self.ensure_resident(idx);
        proof {
            start.lemma_len();
            o.lemma_len();
            backend::drifts_add_up(
                self.inner,
                start.inner,
                o.inner,
                start.bytes(),
                o.bytes(),
                goal,
            );
        }
        match resident {
            Ok(()) => {},
            Err(e) => {
                return Err(e);
            },
        }
        if self.seq_counter == u64::MAX {
            return Err(BackendError::ClockExhausted);
        }
        let ghost loaded = *self;
        let piece = match src {
            Some(v) => {
                assert(v.len() == v@.len());
                pages::copy_range(v, pos as usize, (pos + chunk) as usize)
            },
            None => pages::zero_bytes(chunk as usize),
        };
        assert(piece@ =~= all.subrange(pos as int, pos + chunk));
        self.store_chunk(idx, in_page as usize, &piece);
        let ghost stored = *self;
        proof {
            pages::lemma_splice_grow(
                o.bytes(),
                offset as int,
                all,
                pos as int,
                chunk as int,
            );
            assert forall|p: u64| #[trigger] stored.resident_set().contains(p)
                == loaded.resident_set().contains(p) by {
                assert(stored.resident(p) == loaded.resident(p));
            }
            assert(stored.resident_set() =~= loaded.resident_set());
            if easy {
                stored.lemma_dirty_resident();
                assert(stored.within_limit());
            }
            if calm {
                start.lemma_dirty_resident();
                assert(stored.dirty_set() =~= start.dirty_set().insert(idx)) by {
                    assert forall|p: u64| stored.dirty(p) == (start.dirty(p) || p == idx) by {
                        assert(loaded.dirty(p) == start.dirty(p));
                    }
                }
                assert(stored.within_limit());
            }
        }
        let limited = self.enforce_dirty_limit();
        proof {
            stored.lemma_len();
            backend::drifts_add_up(
                self.inner,
                stored.inner,
                o.inner,
                stored.bytes(),
                o.bytes(),
                goal,
            );
        }
        assert(self.bytes().len() == self.len());
        match limited {
            Ok(()) => {},
            Err(e) => {
                return Err(e);
            },
        }
        proof {
            assert forall|p: u64| #[trigger] self.resident_set().contains(p)
                == stored.resident_set().contains(p) by {
                assert(self.resident(p) == stored.resident(p));
            }
            assert(self.resident_set() =~= stored.resident_set());
        }
        Ok(chunk)
    }

    /// Write `src`, or zeros, over `[offset, offset + len)`, page by page.
    fn put(&mut self, offset: u64, len: u64, src: Option<&Vec<u8>>) -> (r: Result<(), BackendError>)
        requires
            old(self).wf(),
            old(self).dev_size != 0,
            len > 0,
            offset + len <= old(self).dev_size,
            src matches Some(v) ==> v@.len() == len,
        ensures
            final(self).wf(),
            final(self).keeps(*old(self)),
            r is Ok ==> final(self).bytes() == backend::splice(
                old(self).bytes(),
                offset as int,
                contents(src, len),
            ),
            final(self).store().faults() >= old(self).store().faults(),
            final(self).own_faults() == old(self).own_faults(),
            r is Err && old(self).dev_size % 512 == 0 ==> final(self).store().faults()
                > old(self).store().faults() || final(self).seq_counter == u64::MAX,
            final(self).asked == old(self).asked,
            final(self).seq_counter <= old(self).seq_counter + 2 * len,
            old(self).holds(offset as int, len as int) && old(self).roomy(len as int)
                ==> final(self).inner == old(self).inner,
            r is Ok ==> final(self).times().1 == Some(old(self).times().0),
            r is Ok ==> final(self).within_limit(),
            r is Err ==> backend::torn(
                final(self).bytes(),
                old(self).bytes(),
                backend::splice(old(self).bytes(), offset as int, contents(src, len)),
            ),
            r is Err ==> !old(self).holds(offset as int, len as int) || !old(self).roomy(len as int),
            final(self).buffers(*old(self), offset as int, len as int, r is Ok),
            final(self).loads(*old(self), offset as int, len as int),
            r is Ok ==> final(self).times().3 == first_of(old(self).times().3, old(self).times().0),
            backend::drifted(
                final(self).store(),
                old(self).store(),
                old(self).bytes(),
                backend::splice(old(self).bytes(), offset as int, contents(src, len)),
            ),
    {
        let ghost all = contents(src, len);
        let mut pos: u64 = 0;
        proof {
            reveal(BufferedBackend::partway);
            assert(backend::splice(self.bytes(), offset as int, all.take(0)) =~= self.bytes());
        }
        while pos < len
            invariant
                pos <= len,
                src matches Some(v) ==> v@.len() == len,
                all == contents(src, len),
                self.partway(*old(self), offset as int, pos as int, all),
            ensures
                pos == len,
                self.partway(*old(self), offset as int, pos as int, all),
            decreases len - pos,
        {
            match self.put_next(offset, len, pos, src, Ghost(*old(self))) {
                Ok(n) => {
                    pos = pos + n;
                },
                Err(e) => {
                    return Err(e);
                },
            }
        }
        assert(all.take(len as int) == all);
        Ok(())
    }

    /// No more than `max_dirty_pages` pages are dirty.
    pub open spec fn within_limit(&self) -> bool {
        self.dirty_set().len() <= self.settings().max_dirty_pages
    }

    /// `self` is `before` after flushing some pages: none is newly dirty, the
    /// resident pages and their stamps are the same, and each page that was
    /// flushed is older than each that is still dirty.
    pub open spec fn flushed_oldest_of(&self, before: Self) -> bool {
        &&& forall|p: u64| #[trigger] self.dirty(p) ==> before.dirty(p)
        &&& forall|p: u64| #[trigger] self.resident(p) == before.resident(p)
        &&& forall|p: u64| before.resident(p) ==> #[trigger] self.age(p) == before.age(p)
        &&& forall|p: u64, q: u64|
            #![trigger self.dirty(p), self.dirty(q)]
            before.dirty(p) && !self.dirty(p) && self.dirty(q) ==> before.age(p) < before.age(q)
    }
}

impl<B: BlobBackend> BlobBackend for BufferedBackend<B> {
    closed spec fn bytes(&self) -> Seq<u8> {
        Seq::new(self.len() as nat, |i: int| self.byte_at(i))
    }

    closed spec fn durable(&self) -> Seq<u8> {
        self.inner.durable()
    }

    closed spec fn valid(&self) -> bool {
        self.wf()
    }

    closed spec fn requests(&self) -> Seq<Request> {
        self.asked@
    }

    closed spec fn wipes(&self) -> bool {
        self.inner.wipes()
    }

    /// What the inner backend may come to hold, and what it has been given.
    closed spec fn afloat(&self, i: int, b: u8) -> bool {
        self.inner.afloat(i, b) || b == self.inner.bytes()[i]
    }

    closed spec fn gone(&self) -> bool {
        self.inner.gone()
    }

    closed spec fn faults(&self) -> nat {
        self.inner.faults() + self.declined@
    }

    fn create(&mut self, size: u64) -> (r: Result<(), BackendError>)
        ensures
            r is Ok ==> final(self).bytes() == final(self).store().bytes() && final(self).resident_set()
                == Set::<u64>::empty(),
            r is Ok ==> final(self).settings() == old(self).settings() && final(self).clock() == 0
                && final(self).size_known() == (size != 0) && final(self).times() == old(self).times(),
            r is Err && backend::fair_size(size) ==> final(self).store().faults()
                > old(self).store().faults(),
            final(self).store().requests() == old(self).store().requests().push(
                (Request::Create { size }),
            ),
    {
        match self.inner.create(size) {
            Ok(()) => {},
            Err(e) => {
                self.note(Ghost(Request::Create { size }));
                return Err(e);
            },
        }
        self.dev_size = size;
        self.pages.clear();
        self.seq_counter = 0;
        assert(self.bytes() =~= self.inner.bytes());
        self.note(Ghost(Request::Create { size }));
        Ok(())
    }

    fn read(&mut self, offset: u64, len: u64) -> (r: Result<Vec<u8>, BackendError>)
        ensures
            final(self).keeps(*old(self)),
            final(self).dirty_set() == old(self).dirty_set(),
            len == 0 ==> (r matches Ok(d) && d@.len() == 0),
            len > 0 && !range_aligned(offset, len) ==> r == Err::<Vec<u8>, BackendError>(
                BackendError::UnalignedRange { op: Op::Read, offset, len },
            ),
            len > 0 && range_aligned(offset, len) && old(self).size_known() ==> (r matches Err(e)
                ==> out_of_range(Op::Read, offset, len, old(self).bytes().len() as u64, e) || !old(self).holds(offset as int, len as int)),
            r is Ok && len > 0 ==> range_aligned(offset, len) && r->Ok_0@.len() == len,
            old(self).size_known() && old(self).holds(offset as int, len as int)
                ==> final(self).store() == old(self).store(),
            r is Ok && old(self).size_known() ==> final(self).store().requests()
                == old(self).store().requests() + old(self).misses(offset as int, len as int, 0),
            r is Err && backend::fair_range(offset as int, len as int, old(self).bytes().len() as int)
                ==> final(self).store().faults() > old(self).store().faults(),
            final(self).resident_set() == old(self).resident_set(),
    {
        if len == 0 {
            assert(self.inner.requests() + self.misses(offset as int, 0, 0) =~= self.inner.requests());
            self.note(Ghost(Request::Read { offset, len }));
            return Ok(Vec::new());
        }
        if offset % 512 != 0 || len % 512 != 0 {
            self.note(Ghost(Request::Read { offset, len }));
            return Err(BackendError::UnalignedRange { op: Op::Read, offset, len });
        }
        let dev_size = match self.known_size() {
            Ok(n) => n,
            Err(e) => {
                assert(self.dirty_set() =~= old(self).dirty_set());
                self.note(Ghost(Request::Read { offset, len }));
                return Err(e);
            },
        };
        assert(self.dirty_set() =~= old(self).dirty_set());
        match check_in_bounds(Op::Read, offset, len, dev_size) {
            Ok(()) => {},
            Err(e) => {
                self.note(Ghost(Request::Read { offset, len }));
                return Err(e);
            },
        }
        let page_size: u64 = self.config.page_size;
        let ghost start = *self;
        let mut out: Vec<u8> = Vec::new();
        let mut pos: u64 = 0;
        while pos < len
            invariant
                self.wf(),
                self.bytes() == old(self).bytes(),
                self.durable() == old(self).durable(),
                self.inner.bytes() == old(self).inner.bytes(),
                forall|i: int, b: u8| #[trigger]
                    self.inner.afloat(i, b) ==> old(self).inner.afloat(i, b),
                self.keeps(*old(self)),
                self.pages == old(self).pages,
                self.dirty_set() == old(self).dirty_set(),
                self.inner.faults() >= old(self).inner.faults(),
                self.declined == old(self).declined,
                self.asked == old(self).asked,
                old(self).size_known() && old(self).holds(offset as int, len as int) ==> self.inner
                    == old(self).inner,
                old(self).size_known() ==> self.inner.requests() + old(self).misses(
                    offset as int,
                    len as int,
                    pos as int,
                ) == old(self).inner.requests() + old(self).misses(offset as int, len as int, 0),
                self.config == old(self).config,
                page_size == self.config.page_size,
                pos <= len,
                offset + len <= self.bytes().len(),
                self.dev_size != 0,
                self.dev_size == self.bytes().len(),
                range_aligned(offset, len),
                pos % 512 == 0,
                out@ == self.bytes().subrange(offset as int, offset + pos),
            decreases len - pos,
        {
            let at: u64 = offset + pos;
            let idx: u64 = at / page_size;
            let in_page: u64 = at % page_size;
            proof {
                pages::lemma_split(page_size as int, at as int);
            }
            let chunk: u64 = if page_size - in_page < len - pos {
                page_size - in_page
            } else {
                len - pos
            };
            assert(chunk % 512 == 0) by {
                pages::lemma_piece_aligned(page_size as int, at as int);
            }
            let ghost before = out@;
            let ghost start_page = *self;
            match self.pages.get(&idx) {
                Some(page) => {
                    assert(self.page_ok(idx, self.pages@[idx]));
                    pages::append_range(
                        &mut out,
                        &page.data,
                        in_page as usize,
                        (in_page + chunk) as usize,
                    );
                    proof {
                        assert forall|n: int| pos <= n < pos + chunk implies #[trigger] out@[n]
                            == self.bytes()[offset + n] by {
                            let k = n - pos;
                            pages::lemma_same_page(page_size as int, at as int, k);
                            assert(offset + n == at + k);
                            assert(out@[n] == page.data@[in_page + k]);
                            assert(self.byte_at(at + k) == page.data@[in_page + k]);
                        }
                        assert(out@ =~= self.bytes().subrange(offset as int, offset + pos + chunk));
                    }
                },
                None => {
                    assert(!old(self).holds(offset as int, len as int)) by {
                        let ps = old(self).settings().page_size as int;
                        assert(offset as int <= at < offset + len);
                        assert(idx as int == at as int / ps);
                        assert(!old(self).resident((at as int / ps) as u64));
                    }
                    let data = match self.inner.read(at, chunk) {
                        Ok(data) => data,
                        Err(e) => {
                            assert(self.bytes() =~= old(self).bytes());
                            self.note(Ghost(Request::Read { offset, len }));
                            return Err(e);
                        },
                    };
                    assert(self.bytes() =~= old(self).bytes());
                    if data.len() as u64 != chunk {
                        self.note(Ghost(Request::Read { offset, len }));
                        return Err(
                            BackendError::ShortRead {
                                offset: at,
                                expected: chunk,
                                got: data.len() as u64,
                            },
                        );
                    }
                    pages::append_range(&mut out, &data, 0, data.len());
                    proof {
                        assert(data@.subrange(0, data@.len() as int) == data@);
                        assert forall|n: int| pos <= n < pos + chunk implies #[trigger] out@[n]
                            == self.bytes()[offset + n] by {
                            let k = n - pos;
                            pages::lemma_same_page(page_size as int, at as int, k);
                            assert(offset + n == at + k);
                            assert(out@[n] == data@[k]);
                            assert(data@[k] == self.inner.bytes()[at + k]);
                            assert(self.byte_at(at + k) == self.inner.bytes()[at + k]);
                        }
                        assert(out@ =~= self.bytes().subrange(offset as int, offset + pos + chunk));
                    }
                },
            }
            proof {
                assert(chunk == pages::piece(page_size as int, offset as int, len as int, pos as int));
                assert(old(self).resident(idx) == start_page.resident(idx));
                assert(self.inner.requests() + old(self).misses(offset as int, len as int, pos + chunk)
                    =~= start_page.inner.requests() + old(self).misses(
                    offset as int,
                    len as int,
                    pos as int,
                ));
            }
            pos = pos + chunk;
        }
        assert(self.inner.requests() + old(self).misses(offset as int, len as int, len as int)
            =~= self.inner.requests());
        self.note(Ghost(Request::Read { offset, len }));
        Ok(out)
    }

    fn write(&mut self, offset: u64, data: &Vec<u8>) -> (r: Result<(), BackendError>)
        ensures
            final(self).keeps(*old(self)),
            data@.len() == 0 ==> r is Ok && final(self).untouched(*old(self)),
            data@.len() > 0 && !range_aligned(offset, data@.len() as u64) ==> r == Err::<(), BackendError>(
                BackendError::UnalignedRange { op: Op::Write, offset, len: data@.len() as u64 },
            ) && final(self).untouched(*old(self)),
            data@.len() > 0 && range_aligned(offset, data@.len() as u64) && old(self).size_known() ==> (
            r matches Err(e) ==> out_of_range(
                Op::Write,
                offset,
                data@.len() as u64,
                old(self).bytes().len() as u64,
                e,
            ) || !old(self).holds(offset as int, data@.len() as int) || !old(self).roomy(data@.len() as int)),
            r is Ok && data@.len() > 0 ==> final(self).within_limit(),
            old(self).size_known() ==> final(self).buffers(
                *old(self),
                offset as int,
                data@.len() as int,
                r is Ok,
            ),
            r is Ok && data@.len() > 0 ==> range_aligned(offset, data@.len() as u64) && final(self).times().1
                == Some(old(self).times().0) && final(self).times().3 == first_of(
                old(self).times().3,
                old(self).times().0,
            ),
            data@.len() > 0 && offset + data@.len() > old(self).bytes().len() ==> r is Err
                && final(self).bytes() == old(self).bytes() && final(self).durable()
                == old(self).durable() && final(self).dirty_set() == old(self).dirty_set(),
            r is Err && backend::fair_range(offset as int, data@.len() as int, old(self).bytes().len() as int)
                ==> final(self).store().faults() > old(self).store().faults() || final(self).clock()
                == u64::MAX,
            final(self).clock() <= old(self).clock() + 2 * data@.len(),
            old(self).size_known() && old(self).holds(offset as int, data@.len() as int) && old(self).roomy(
                data@.len() as int,
            ) ==> final(self).store() == old(self).store(),
            final(self).loads(*old(self), offset as int, data@.len() as int),
    {
        if data.len() == 0 {
            assert(backend::splice(self.bytes(), offset as int, data@) =~= self.bytes());
            self.note(Ghost(Request::Write { offset, data: data@ }));
            return Ok(());
        }
        let len: u64 = data.len() as u64;
        if offset % 512 != 0 || len % 512 != 0 {
            self.note(Ghost(Request::Write { offset, data: data@ }));
            return Err(BackendError::UnalignedRange { op: Op::Write, offset, len });
        }
        let dev_size = match self.known_size() {
            Ok(n) => n,
            Err(e) => {
                self.note(Ghost(Request::Write { offset, data: data@ }));
                return Err(e);
            },
        };
        match check_in_bounds(Op::Write, offset, len, dev_size) {
            Ok(()) => {},
            Err(e) => {
                self.note(Ghost(Request::Write { offset, data: data@ }));
                return Err(e);
            },
        }
        let ghost start = *self;
        proof {
            backend::a_drift_shows(start.inner, old(self).inner, old(self).bytes(), old(self).bytes());
            old(self).lemma_len();
            start.lemma_len();
        }
        let r = self.put(offset, len, Some(data));
        proof {
            let goal = backend::splice(old(self).bytes(), offset as int, data@);
            backend::drifts_add_up_to(
                self.inner,
                start.inner,
                old(self).inner,
                old(self).bytes(),
                goal,
            );
            backend::a_drift_shows(self.inner, old(self).inner, old(self).bytes(), goal);
        }
        assert(contents(Some(data), len) == data@);
        if r.is_err() {
            self.decline();
        }
        self.note(Ghost(Request::Write { offset, data: data@ }));
        r
    }

    fn clear(&mut self, offset: u64, len: u64) -> (r: Result<(), BackendError>)
        ensures
            final(self).keeps(*old(self)),
            len == 0 ==> r is Ok && final(self).untouched(*old(self)),
            len > 0 && !range_aligned(offset, len) ==> r == Err::<(), BackendError>(
                BackendError::UnalignedRange { op: Op::Clear, offset, len },
            ) && final(self).untouched(*old(self)),
            len > 0 && range_aligned(offset, len) && old(self).size_known() ==> (r matches Err(e)
                ==> out_of_range(Op::Clear, offset, len, old(self).bytes().len() as u64, e) || !old(self).holds(offset as int, len as int) || !old(self).roomy(len as int)),
            r is Ok && len > 0 ==> final(self).within_limit(),
            old(self).size_known() ==> final(self).buffers(
                *old(self),
                offset as int,
                len as int,
                r is Ok,
            ),
            r is Ok && len > 0 ==> range_aligned(offset, len) && final(self).times().1 == Some(
                old(self).times().0,
            ) && final(self).times().3 == first_of(old(self).times().3, old(self).times().0),
            len > 0 && offset + len > old(self).bytes().len() ==> r is Err && final(self).bytes()
                == old(self).bytes() && final(self).durable() == old(self).durable()
                && final(self).dirty_set() == old(self).dirty_set(),
            r is Err && backend::fair_range(offset as int, len as int, old(self).bytes().len() as int)
                ==> final(self).store().faults() > old(self).store().faults() || final(self).clock()
                == u64::MAX,
            final(self).clock() <= old(self).clock() + 2 * len,
            old(self).size_known() && old(self).holds(offset as int, len as int) && old(self).roomy(
                len as int,
            ) ==> final(self).store() == old(self).store(),
            final(self).loads(*old(self), offset as int, len as int),
    {
        if len == 0 {
            assert(backend::splice(self.bytes(), offset as int, backend::zeros(0)) =~= self.bytes());
            self.note(Ghost(Request::Clear { offset, len }));
            return Ok(());
        }
        if offset % 512 != 0 || len % 512 != 0 {
            self.note(Ghost(Request::Clear { offset, len }));
            return Err(BackendError::UnalignedRange { op: Op::Clear, offset, len });
        }
        let dev_size = match self.known_size() {
            Ok(n) => n,
            Err(e) => {
                self.note(Ghost(Request::Clear { offset, len }));
                return Err(e);
            },
        };
        match check_in_bounds(Op::Clear, offset, len, dev_size) {
            Ok(()) => {},
            Err(e) => {
                self.note(Ghost(Request::Clear { offset, len }));
                return Err(e);
            },
        }
        let ghost start = *self;
        proof {
            backend::a_drift_shows(start.inner, old(self).inner, old(self).bytes(), old(self).bytes());
            old(self).lemma_len();
            start.lemma_len();
        }
        let r = self.put(offset, len, None);
        proof {
            let goal = backend::splice(old(self).bytes(), offset as int, backend::zeros(len as nat));
            backend::drifts_add_up_to(
                self.inner,
                start.inner,
                old(self).inner,
                old(self).bytes(),
                goal,
            );
            backend::a_drift_shows(self.inner, old(self).inner, old(self).bytes(), goal);
        }
        if r.is_err() {
            self.decline();
        }
        self.note(Ghost(Request::Clear { offset, len }));
        r
    }

    fn discard(&mut self, offset: u64, len: u64) -> (r: Result<(), BackendError>)
        ensures
            r == Err::<(), BackendError>(BackendError::Unsupported),
    {
        self.decline();
        self.note(Ghost(Request::Discard { offset, len }));
        Err(BackendError::Unsupported)
    }

    fn flush(&mut self) -> (r: Result<(), BackendError>)
        ensures
            final(self).keeps(*old(self)),
            r is Ok ==> final(self).store().bytes() == final(self).bytes() && final(self).dirty_set()
                == Set::<u64>::empty(),
            final(self).times().0 == old(self).times().0,
            final(self).times().1 == old(self).times().1,
            final(self).times().3 == old(self).times().3,
            r is Ok ==> exists|list: Seq<u64>|
                {
                    &&& maps::increasing(list)
                    &&& list.to_set() == old(self).dirty_set()
                    &&& final(self).store().requests() == (old(self).store().requests()
                        + #[trigger] old(self).write_backs(list)).push(Request::Flush)
                },
            r is Ok ==> final(self).times().2 == (if old(self).dirty_set() == Set::<u64>::empty() {
                old(self).times().2
            } else {
                Some(old(self).times().0)
            }),
            r is Err && old(self).bytes().len() % 512 == 0 ==> final(self).store().faults()
                > old(self).store().faults(),
    {
        let list = self.dirty_list();
        proof {
            assert forall|p: u64| #[trigger] self.dirty(p) implies exists|j: int|
                0 <= j < list@.len() && list@[j] == p by {
                assert(self.dirty_set().contains(p));
                assert(list@.to_set().contains(p));
            }
        }
        assert forall|j: int| 0 <= j < list@.len() implies self.dirty(#[trigger] list@[j]) by {
            assert(list@.to_set().contains(list@[j]));
            assert(self.dirty_set().contains(list@[j]));
        }
        let mut i: usize = 0;
        while i < list.len()
            invariant
                i <= list@.len(),
                self.wf(),
                self.bytes() == old(self).bytes(),
                self.keeps(*old(self)),
                self.times() == old(self).times(),
                self.inner.faults() >= old(self).inner.faults(),
                self.declined == old(self).declined,
                maps::increasing(list@),
                list@.to_set() == old(self).dirty_set(),
                list@.len() == old(self).dirty_set().len(),
                forall|j: int| i <= j < list@.len() ==> self.dirty(#[trigger] list@[j]),
                self.asked == old(self).asked,
                self.config == old(self).config,
                self.inner.requests() =~= old(self).inner.requests() + old(self).write_backs(
                    list@.take(i as int),
                ),
                old(self).wf(),
                backend::drifted(self.inner, old(self).inner, old(self).bytes(), old(self).bytes()),
                forall|p: u64| #[trigger] self.dirty(p) ==> exists|j: int| i <= j < list@.len() && list@[j] == p,
            decreases list@.len() - i,
        {
            let ghost before = *self;
            let flushed = self.flush_page(list[i]);
            proof {
                assert(before.write_back(list@[i as int]) == old(self).write_back(list@[i as int]));
                assert(old(self).write_backs(list@.take(i + 1)) =~= old(self).write_backs(
                    list@.take(i as int),
                ).push(old(self).write_back(list@[i as int])));
                before.lemma_len();
                old(self).lemma_len();
                backend::drifts_add_up(
                    self.inner,
                    before.inner,
                    old(self).inner,
                    before.bytes(),
                    old(self).bytes(),
                    old(self).bytes(),
                );
                backend::a_drift_shows(
                    self.inner,
                    old(self).inner,
                    old(self).bytes(),
                    old(self).bytes(),
                );
            }
            match flushed {
                Ok(()) => {},
                Err(e) => {
                    self.note(Ghost(Request::Flush));
                    return Err(e);
                },
            }
            proof {
                assert forall|p: u64| #[trigger] self.dirty(p) implies exists|j: int|
                    i + 1 <= j < list@.len() && list@[j] == p by {
                    assert(before.dirty(p));
                    let j = choose|j: int| i <= j < list@.len() && list@[j] == p;
                    assert(p != list@[i as int]);
                }
            }
            i = i + 1;
        }
        let ghost flushed = *self;
        assert(list@.take(list@.len() as int) == list@);
        if list.len() > 0 {
            assert(list@.to_set().contains(list@[0]));
            assert(old(self).dirty_set().contains(list@[0]));
            self.last_flush = Some(self.now);
        } else {
            assert(old(self).dirty_set() =~= Set::<u64>::empty());
        }
        assert forall|p: u64| !#[trigger] self.dirty(p) by {
            assert(!flushed.dirty(p));
        }
        assert(self.dirty_set() =~= Set::<u64>::empty());
        proof {
            assert(self.bytes() =~= old(self).bytes());
            self.lemma_clean_is_inner();
        }
        let r = self.inner.flush();
        assert(self.bytes() =~= old(self).bytes());
        proof {
            old(self).lemma_len();
            backend::a_change_drifts(self.inner, flushed.inner, flushed.inner.bytes());
            backend::drifts_add_up(
                self.inner,
                flushed.inner,
                old(self).inner,
                flushed.inner.bytes(),
                old(self).bytes(),
                old(self).bytes(),
            );
            backend::a_drift_shows(
                self.inner,
                old(self).inner,
                old(self).bytes(),
                old(self).bytes(),
            );
        }
        assert(self.dirty_set() =~= Set::<u64>::empty());
        assert(self.keeps(*old(self))) by {
            assert forall|p: u64| #[trigger] self.resident(p) implies flushed.resident(p)
                && self.age(p) == flushed.age(p) && self.page_data(p) == flushed.page_data(p) by {}
        }
        self.note(Ghost(Request::Flush));
        r
    }

    fn resize(&mut self, new_size: u64) -> (r: Result<(), BackendError>)
        ensures
            final(self).dirty_set() == old(self).dirty_set(),
            final(self).keeps(*old(self)),
            r is Ok ==> final(self).store().bytes().len() == new_size && final(self).size_known() == (
            new_size != 0),
            r is Err && backend::fair_size(new_size) && old(self).bytes().len() <= new_size
                ==> final(self).store().faults() > old(self).store().faults(),
            r is Err ==> final(self).store().bytes() == old(self).store().bytes()
                && final(self).size_known() == old(self).size_known(),
    {
        let r = self.inner.resize(new_size);
        match r {
            Ok(()) => {
                let known = self.dev_size != 0;
                let ghost before = *self;
                self.dev_size = new_size;
                proof {
                    let grown = (new_size - old(self).bytes().len()) as nat;
                    assert forall|p: u64| #[trigger] self.pages@.contains_key(p) implies self.page_ok(
                        p,
                        self.pages@[p],
                    ) by {
                        assert(old(self).page_ok(p, old(self).pages@[p]));
                    }
                    assert(new_size == 0 ==> self.pages@ =~= Map::<u64, Page>::empty()) by {
                        if new_size == 0 && exists|p: u64| self.pages@.contains_key(p) {
                            let p = choose|p: u64| self.pages@.contains_key(p);
                            assert(old(self).page_ok(p, old(self).pages@[p]));
                            pages::lemma_in_page(self.ps(), p as int, 0);
                        }
                    }
                    assert forall|i: int| 0 <= i < self.len() implies #[trigger] self.byte_at(i) == (old(self).bytes() + backend::zeros(grown))[i] by {
                        pages::lemma_split(self.ps(), i);
                        let p = (i / self.ps()) as u64;
                        if self.pages@.contains_key(p) {
                            assert(old(self).page_ok(p, old(self).pages@[p]));
                        }
                    }
                    assert(self.bytes() =~= old(self).bytes() + backend::zeros(grown));
                    assert(self.dirty_set() =~= old(self).dirty_set());
                }
                self.note(Ghost(Request::Resize { new_size }));
                Ok(())
            },
            Err(e) => {
                assert(self.bytes() =~= old(self).bytes());
                assert(self.dirty_set() =~= old(self).dirty_set());
                self.note(Ghost(Request::Resize { new_size }));
                Err(e)
            },
        }
    }

    fn delete(&mut self) -> (r: Result<(), BackendError>)
        ensures
            final(self).resident_set() == Set::<u64>::empty(),
            r is Err ==> final(self).store().faults() > old(self).store().faults(),
            final(self).store().requests() == old(self).store().requests().push(Request::Delete),
    {
        self.pages.clear();
        let r = self.inner.delete();
        assert(self.resident_set() =~= Set::<u64>::empty());
        self.note(Ghost(Request::Delete));
        r
    }

    fn size(&mut self) -> (r: Result<u64, BackendError>)
        ensures
            final(self).keeps(*old(self)),
            old(self).size_known() ==> r is Ok,
            r is Err ==> final(self).store().faults() > old(self).store().faults(),
            old(self).size_known() ==> final(self).store() == old(self).store(),
    {
        let r = self.known_size();
        self.note(Ghost(Request::Size));
        r
    }

    fn snapshot(&mut self) -> (r: Result<String, BackendError>)
        ensures
            r == Err::<String, BackendError>(BackendError::Unsupported),
    {
        self.note(Ghost(Request::Snapshot { id: None }));
        Err(BackendError::Unsupported)
    }
}

/// A flush writes each dirty page once, in the order of the pages, and then flushes the
/// inner backend once; so a second flush with no change between them writes no page.
pub proof fn a_second_flush_writes_no_page<B: BlobBackend>(
    once: BufferedBackend<B>,
    twice: BufferedBackend<B>,
    list: Seq<u64>,
)
    requires
        once.dirty_set() == Set::<u64>::empty(),
        list.to_set() == once.dirty_set(),
        twice.store().requests() == (once.store().requests() + once.write_backs(list)).push(
            Request::Flush,
        ),
    ensures
        twice.store().requests() == once.store().requests().push(Request::Flush),
{
    if list.len() > 0 {
        assert(list.to_set().contains(list[0]));
    }
    assert(once.store().requests() + once.write_backs(list) =~= once.store().requests());
}

/// A copy stays good while the buffer is read, written, cleared and flushed: it can
/// be completed whenever it has been written, and completing it never takes a later
/// change for flushed, because a changed page carries another stamp.
pub proof fn a_copy_outlives_other_work<B: BlobBackend>(
    s: PageSnapshot,
    before: BufferedBackend<B>,
    after: BufferedBackend<B>,
)
    requires
        before.took(s),
        after.keeps(before),
        after.valid(),
        before.size_known(),
        after.size_known(),
        after.bytes().len() == before.bytes().len(),
    ensures
        after.took(s),
{
    assert(after.ps() == before.ps());
    assert(after.dev_size == before.dev_size);
    assert(after.clipped(s.page) == before.clipped(s.page));
}

// ── What the rules come to ──────────────────────────────────────────────────

/// A flush is due where something is dirty and the last write is as old as the idle
/// time, or the last flush as old as the force time; a time of 0 seconds turns a
/// rule off.
pub proof fn a_flush_is_due_when_its_time_has_come(
    config: BufferedConfig,
    now: u64,
    first_write: Option<u64>,
    last_write: Option<u64>,
    last_flush: Option<u64>,
)
    ensures
        due(config, false, now, first_write, last_write, last_flush) is No,
        due(config, true, now, first_write, last_write, last_flush) is Idle <==> (
        config.idle_flush_secs > 0 && (last_write matches Some(w) && now - w
            >= config.idle_flush_secs * 1_000_000_000)),
        due(config, true, now, first_write, last_write, last_flush) !is Idle ==> (due(
            config,
            true,
            now,
            first_write,
            last_write,
            last_flush,
        ) is Force <==> config.force_flush_timeout_secs > 0 && (match (last_flush, first_write) {
            (Some(f), _) => now - f >= config.force_flush_timeout_secs * 1_000_000_000,
            (None, Some(w)) => now - w >= config.force_flush_timeout_secs * 1_000_000_000,
            (None, None) => false,
        })),
        config.idle_flush_secs == 0 && config.force_flush_timeout_secs == 0 ==> due(
            config,
            true,
            now,
            first_write,
            last_write,
            last_flush,
        ) is No,
{
}

/// A flush that is due stays due while time goes by and nothing else happens.
pub proof fn a_due_flush_stays_due(
    config: BufferedConfig,
    now: u64,
    later: u64,
    first_write: Option<u64>,
    last_write: Option<u64>,
    last_flush: Option<u64>,
)
    requires
        now <= later,
        due(config, true, now, first_write, last_write, last_flush) !is No,
    ensures
        due(config, true, later, first_write, last_write, last_flush) !is No,
{
}

/// The first write keeps its time; only where there was none does a write count as
/// the first.
pub proof fn the_first_write_keeps_its_time(first: Option<u64>, now: u64, later: u64)
    ensures
        first is Some ==> first_of(first, now) == first,
        first_of(None, now) == Some(now),
        first_of(first_of(first, now), later) == first_of(first, now),
{
}

/// A usable configuration has pages of whole sectors and room for a dirty one.
pub proof fn a_usable_buffer_has_whole_pages(c: BufferedConfig)
    ensures
        c.ok() <==> c.page_size > 0 && c.page_size % 512 == 0 && c.max_dirty_pages >= 1,
{
}

/// A range that leaves the device is reported with what was asked for; one inside is
/// not.
pub proof fn a_range_is_reported_as_it_was_asked_for(
    op: Op,
    offset: u64,
    len: u64,
    size: u64,
    e: BackendError,
)
    ensures
        offset + len <= size ==> !out_of_range(op, offset, len, size, e),
        out_of_range(op, offset, len, size, e) && offset + len <= u64::MAX ==> e == (
        BackendError::OutOfBounds { op, offset, len, size }),
        out_of_range(op, offset, len, size, e) && offset + len > u64::MAX ==> e == (
        BackendError::Overflow { op, offset, len }),
        offset + len > size && offset + len <= u64::MAX ==> out_of_range(
            op,
            offset,
            len,
            size,
            BackendError::OutOfBounds { op, offset, len, size },
        ),
        range_aligned(offset, len) <==> offset % 512 == 0 && len % 512 == 0,
{
}

/// The inner backend is asked only for what is not in the buffer: nothing at all
/// where every page is in it, and for a whole request inside one page that is not,
/// for exactly that request.
pub proof fn only_missing_pages_are_asked_for<B: BlobBackend>(
    b: BufferedBackend<B>,
    offset: int,
    len: int,
    pos: int,
)
    requires
        b.settings().page_size > 0,
        0 <= offset,
        0 <= pos <= len,
        offset + len <= u64::MAX,
    ensures
        b.holds(offset, len) ==> b.misses(offset, len, pos) == Seq::<Request>::empty(),
        pos < len && !b.resident(((offset + pos) / b.settings().page_size as int) as u64) && (offset
            + pos) % b.settings().page_size as int + (len - pos) <= b.settings().page_size
            ==> b.misses(offset, len, pos) == seq![
            Request::Read { offset: (offset + pos) as u64, len: (len - pos) as u64 },
        ],
        forall|k: int|
            0 <= k < b.misses(offset, len, pos).len() ==> (#[trigger] b.misses(offset, len, pos)[k]
                matches Request::Read { offset: at, len: n } && offset + pos <= at && at + n <= offset
                + len && 0 < n <= b.settings().page_size && !b.resident(
                (at as int / b.settings().page_size as int) as u64,
            )),
    decreases len - pos,
{
    let ps = b.settings().page_size as int;
    if pos < len {
        pages::a_piece_ends_with_its_page_or_its_request(ps, offset, len, pos);
        pages::lemma_split(ps, offset + pos);
        let n = pages::piece(ps, offset, len, pos);
        only_missing_pages_are_asked_for(b, offset, len, pos + n);
        let rest = b.misses(offset, len, pos + n);
        let all = b.misses(offset, len, pos);
        if b.holds(offset, len) {
            assert(b.resident(((offset + pos) / ps) as u64));
            assert(all =~= rest);
        }
        if pos + n == len {
            assert(rest =~= Seq::<Request>::empty());
        }
        if b.resident(((offset + pos) / ps) as u64) {
            assert(all =~= rest);
        } else {
            let first = Request::Read { offset: (offset + pos) as u64, len: n as u64 };
            assert(all == seq![first] + rest);
            assert forall|k: int| 1 <= k < all.len() implies #[trigger] all[k] == rest[k - 1] by {}
            if pos + n == len {
                assert(all =~= seq![first]);
            }
        }
    }
}

/// A page is written back where it lies, with the bytes that the buffer shows there,
/// as far as the device goes.
pub proof fn a_page_is_written_back_where_it_lies<B: BlobBackend>(b: BufferedBackend<B>, p: u64)
    requires
        b.settings().page_size > 0,
        p * b.settings().page_size < b.bytes().len() <= u64::MAX,
    ensures
        b.write_back(p) matches Request::Write { offset, data } && {
            &&& offset == p * b.settings().page_size
            &&& 0 < data.len() <= b.settings().page_size
            &&& offset + data.len() <= b.bytes().len()
            &&& data == b.bytes().subrange(offset as int, offset + data.len())
            &&& (data.len() == b.settings().page_size || offset + data.len() == b.bytes().len())
        },
{
    assert(0 <= p * b.settings().page_size) by (nonlinear_arith)
        requires
            p >= 0,
            b.settings().page_size > 0,
    ;
}

} // verus!

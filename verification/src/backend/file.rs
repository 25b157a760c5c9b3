//! Persistent local-disk cache backend.
//!
//! `FileCacheBackend` wraps any `BlobBackend` and keeps whole pages of it in a
//! local data file, so that it can stand between the in-memory write-back buffer
//! and the blob. Page `i` is stored at offset `i * page_size` of the data file; a
//! metadata file holds two bitmaps, `present` and `dirty`, one bit per page.
//!
//! The page data is made durable before the dirty bit is stored, and the dirty bit
//! before a write is acknowledged: a dirty page survives a restart and is flushed
//! later. A lost `present` bit of a clean page only costs another read.
//!
//! The data file and the metadata file are themselves `BlobBackend`s; the metadata
//! file is written in whole 512-byte blocks.

use vstd::prelude::*;

use crate::backend;
use crate::backend::bitmap;
use crate::backend::buffered;
use crate::backend::cache_budget;
use crate::backend::cache_budget::CacheBudget;
use crate::backend::cache_index;
use crate::backend::cache_index::{CacheIndex, Peers};
use crate::backend::cache_lru::Lru;
use crate::backend::cache_meta;
use crate::backend::cache_meta::Reinit;
use crate::backend::pages;
use crate::backend::{check_in_bounds, BackendError, BlobBackend, Op, Request};
use crate::csi;
use crate::wire;

verus! {

/// Configuration of the local-disk cache.
#[derive(Debug, Clone)]
pub struct FileCacheConfig {
    /// Directory that holds the data and metadata files.
    pub dir: String,
    /// Base file name of the cache files, unique within `dir`.
    pub name: String,
    /// Size of each cache page in bytes (a non-zero multiple of 512).
    pub page_size: u64,
    /// Limit on cached bytes shared by all processes of `dir`; 0 for none.
    pub max_bytes: u64,
    /// Identity of the blob that this cache mirrors.
    pub blob_identity: String,
    /// Share clean pages with other processes.
    pub share_pages: bool,
}

impl Default for FileCacheConfig {
    fn default() -> (r: Self)
        ensures
            r.dir@ == "."@,
            r.name@ == "ublk-azblob-cache"@,
            r.page_size == 1048576,
            r.max_bytes == 0,
            r.blob_identity@ == Seq::<char>::empty(),
            !r.share_pages,
    {
        FileCacheConfig {
            dir: ".".to_owned(),
            name: "ublk-azblob-cache".to_owned(),
            page_size: 1048576,
            max_bytes: 0,
            blob_identity: String::new(),
            share_pages: false,
        }
    }
}

/// What a warm-up did, in bytes.
#[derive(Clone, Copy, Debug, PartialEq, Eq, Structural)]
pub struct Warmup {
    /// Fetched into the cache.
    pub warmed: u64,
    /// Passed over, because they hold no data.
    pub skipped: u64,
    /// Not fetched, because the fetch failed.
    pub failed: u64,
}

/// What an eviction pass did.
pub struct Eviction {
    /// The pages dropped, oldest first.
    pub pages: Vec<u64>,
    /// Why the next page could not be dropped, if the pass ended there.
    pub refused: Option<BackendError>,
}

/// Persistent local-disk page cache in front of any `BlobBackend`.
pub struct FileCacheBackend<B: BlobBackend, D: BlobBackend, M: BlobBackend> {
    inner: B,
    /// The data file.
    data: D,
    /// The metadata file.
    meta: M,
    page_size: u64,
    dev_size: u64,
    num_pages: u64,
    /// The metadata header.
    head: Vec<u8>,
    /// Pages in the data file.
    present: Vec<u8>,
    /// Pages in the data file that the inner backend does not have yet.
    dirty: Vec<u8>,
    /// Bytes of resident pages, while a budget is active.
    resident: u64,
    lru: Lru,
    budget: Option<CacheBudget>,
    index: Option<CacheIndex>,
    /// Whether the data file can give space back.
    eviction_supported: bool,
    /// Dirty pages whose bits may be missing in the metadata file, because
    /// storing them failed.
    unsaved: Ghost<Set<u64>>,
    /// Whether the shared index has always given back what was published here.
    faithful: Ghost<bool>,
    /// Fair requests that were failed here.
    declined: Ghost<nat>,
    /// The requests made so far.
    asked: Ghost<Seq<Request>>,
}

/// Why a cache could not be opened, with what it was to be opened on.
pub struct OpenFailed<B, D, M> {
    pub error: BackendError,
    pub inner: B,
    pub data: D,
    pub meta: M,
}

/// Number of pages of `page_size` bytes that cover `dev_size` bytes.
pub open spec fn page_count(dev_size: int, page_size: int) -> int {
    (dev_size + page_size - 1) / page_size
}

/// Pages cover the device, and each holds some byte of it.
pub proof fn lemma_page_count(dev_size: int, page_size: int)
    requires
        dev_size > 0,
        page_size > 0,
    ensures
        0 < page_count(dev_size, page_size) <= dev_size,
        forall|i: int| 0 <= i < dev_size ==> #[trigger] (i / page_size) < page_count(dev_size, page_size),
        forall|p: int|
            0 <= p < page_count(dev_size, page_size) ==> #[trigger] (p * page_size) < dev_size,
{
    let n = page_count(dev_size, page_size);
    pages::lemma_split(page_size, dev_size + page_size - 1);
    assert forall|i: int| 0 <= i < dev_size implies #[trigger] (i / page_size) < n by {
        pages::lemma_split(page_size, i);
        if i / page_size >= n {
            assert((i / page_size) * page_size >= n * page_size) by (nonlinear_arith)
                requires
                    i / page_size >= n,
                    page_size > 0,
            ;
        }
    }
    assert forall|p: int| 0 <= p < n implies #[trigger] (p * page_size) < dev_size by {
        pages::lemma_page_order(page_size, p, n);
    }
    assert(n >= 1) by {
        if n <= 0 {
            assert(n * page_size <= 0) by (nonlinear_arith)
                requires
                    n <= 0,
                    page_size > 0,
            ;
        }
    }
    assert(n <= dev_size) by {
        if n > dev_size {
            assert(n * page_size >= (dev_size + 1) * page_size) by (nonlinear_arith)
                requires
                    n >= dev_size + 1,
                    page_size > 0,
            ;
            assert((dev_size + 1) * page_size == dev_size * page_size + page_size) by (nonlinear_arith);
            assert(dev_size * page_size >= dev_size) by (nonlinear_arith)
                requires
                    dev_size > 0,
                    page_size > 0,
            ;
        }
    }
}

/// The length of page `p` of a device of `dev_size` bytes: the last one may be
/// short.
pub open spec fn page_span(dev_size: int, page_size: int, p: int) -> int {
    if dev_size - p * page_size < page_size {
        dev_size - p * page_size
    } else {
        page_size
    }
}

/// The lengths of the pages of `held` before page `n`, together.
pub open spec fn booked_bytes(held: Set<u64>, dev_size: int, page_size: int, n: int) -> int
    decreases n,
{
    if n <= 0 {
        0
    } else {
        booked_bytes(held, dev_size, page_size, n - 1) + if held.contains((n - 1) as u64) {
            page_span(dev_size, page_size, n - 1)
        } else {
            0
        }
    }
}

/// The pages before page `n` hold no more than the device does.
proof fn lemma_booked_bound(held: Set<u64>, dev_size: int, page_size: int, n: int)
    requires
        dev_size > 0,
        page_size > 0,
        0 <= n <= page_count(dev_size, page_size),
    ensures
        0 <= booked_bytes(held, dev_size, page_size, n) <= n * page_size,
        booked_bytes(held, dev_size, page_size, n) <= dev_size,
    decreases n,
{
    if n > 0 {
        lemma_booked_bound(held, dev_size, page_size, n - 1);
        lemma_page_count(dev_size, page_size);
        assert(((n - 1) * page_size) < dev_size);
        assert(n * page_size == (n - 1) * page_size + page_size) by (nonlinear_arith);
    }
}

/// One page more or less on account.
proof fn lemma_booked_page(held: Set<u64>, p: u64, dev_size: int, page_size: int, n: int)
    requires
        !held.contains(p),
        n <= u64::MAX,
    ensures
        booked_bytes(held.insert(p), dev_size, page_size, n) == booked_bytes(
            held,
            dev_size,
            page_size,
            n,
        ) + if p < n {
            page_span(dev_size, page_size, p as int)
        } else {
            0
        },
    decreases n,
{
    if n > 0 {
        lemma_booked_page(held, p, dev_size, page_size, n - 1);
    }
}

/// No page on account.
proof fn lemma_booked_none(dev_size: int, page_size: int, n: int)
    ensures
        booked_bytes(Set::<u64>::empty(), dev_size, page_size, n) == 0,
    decreases n,
{
    if n > 0 {
        lemma_booked_none(dev_size, page_size, n - 1);
    }
}

/// Page `p` is on record in `index` as published here.
spec fn shown_in(index: Option<CacheIndex>, p: u64) -> bool {
    index matches Some(x) && x.published(p)
}

/// Every page published here is present and clean.
spec fn shows_clean_only(
    index: Option<CacheIndex>,
    present: Seq<u8>,
    dirty: Seq<u8>,
    num_pages: u64,
) -> bool {
    forall|p: u64| #[trigger]
        shown_in(index, p) ==> p < num_pages && bitmap::bit(present, p as int) && !bitmap::bit(
            dirty,
            p as int,
        )
}

/// The two bitmaps stand behind the header in the metadata `m`.
#[verifier::opaque]
spec fn holds_bits(m: Seq<u8>, present: Seq<u8>, dirty: Seq<u8>) -> bool {
    &&& forall|i: int| 0 <= i < present.len() ==> m[64 + i] == #[trigger] present[i]
    &&& forall|i: int| 0 <= i < dirty.len() ==> m[64 + present.len() + i] == #[trigger] dirty[i]
}

/// Whatever a crash leaves in the metadata file has the header's fields and the dirty
/// bitmap.
#[verifier::opaque]
spec fn holds_firmly<M: BlobBackend>(meta: M, head: Seq<u8>, dirty: Seq<u8>) -> bool {
    &&& meta.durable().len() == meta.bytes().len()
    &&& forall|i: int, x: u8|
        (0 <= i < 12 || 16 <= i < 32) && #[trigger] backend::may_hold(meta, i, x) ==> x == head[i]
    &&& forall|i: int, x: u8|
        0 <= i - 64 - dirty.len() < dirty.len() && #[trigger] backend::may_hold(meta, i, x) ==> x
            == dirty[i - 64 - dirty.len()]
}

/// The pages on account are those in the data file but for page `but`, and those of
/// them that are clean may be dropped.
#[verifier::opaque]
spec fn books_match(
    lru: Lru,
    present: Seq<u8>,
    dirty: Seq<u8>,
    num_pages: u64,
    but: Option<u64>,
) -> bool {
    &&& forall|p: u64|
        but != Some(p) ==> #[trigger] lru.stamps().contains_key(p) == (p < num_pages && bitmap::bit(
            present,
            p as int,
        ))
    &&& forall|p: u64|
        but != Some(p) ==> #[trigger] lru.clean().contains(p) == (p < num_pages && bitmap::bit(
            present,
            p as int,
        ) && !bitmap::bit(dirty, p as int))
}

/// The clean pages of `present` hold what the inner backend holds, and every dirty
/// page is present.
pub open spec fn coherent(
    data: Seq<u8>,
    inner: Seq<u8>,
    present: Seq<u8>,
    dirty: Seq<u8>,
    page_size: int,
    dev_size: int,
) -> bool {
    &&& forall|p: int|
        0 <= p < page_count(dev_size, page_size) && #[trigger] bitmap::bit(dirty, p) ==> bitmap::bit(
            present,
            p,
        )
    &&& forall|i: int|
        0 <= i < dev_size && bitmap::bit(present, i / page_size) && !bitmap::bit(dirty, i / page_size)
            ==> #[trigger] data[i] == inner[i]
}

impl<B: BlobBackend, D: BlobBackend, M: BlobBackend> FileCacheBackend<B, D, M> {
    /// The inner backend.
    pub closed spec fn store(&self) -> B {
        self.inner
    }

    /// The data file.
    pub closed spec fn data_file(&self) -> D {
        self.data
    }

    /// The metadata file.
    pub closed spec fn meta_file(&self) -> M {
        self.meta
    }

    /// The device and the inner backend consist of whole 512-byte blocks.
    pub open spec fn even(&self) -> bool {
        self.bytes().len() % 512 == 0 && self.store().bytes().len() % 512 == 0
    }

    /// What a read of `[offset, offset + len)` asks of the inner backend from byte `pos`
    /// on: the piece of each page that is not in the data file.
    pub open spec fn misses(&self, offset: int, len: int, pos: int) -> Seq<Request>
        decreases len - pos,
    {
        let ps = self.page_bytes() as int;
        let n = pages::piece(ps, offset, len, pos);
        if pos < 0 || pos >= len || n <= 0 {
            Seq::empty()
        } else {
            let at = offset + pos;
            (if self.here(at / ps) {
                Seq::empty()
            } else {
                seq![Request::Read { offset: at as u64, len: n as u64 }]
            }) + self.misses(offset, len, pos + n)
        }
    }

    /// The request that fetches page `p` from the inner backend.
    pub open spec fn fetch(&self, p: int) -> Request {
        Request::Read { offset: (p * self.page_bytes()) as u64, len: self.len_of(p) as u64 }
    }

    /// The request that puts page `p` into the data file: a page of zeros is left as a
    /// hole.
    pub open spec fn keep(&self, p: int) -> Request {
        let at = p * self.page_bytes();
        let page = self.bytes().subrange(at, at + self.len_of(p));
        if page == backend::zeros(self.len_of(p) as nat) {
            Request::Clear { offset: at as u64, len: self.len_of(p) as u64 }
        } else {
            Request::Write { offset: at as u64, data: page }
        }
    }

    /// The requests that give the space of the pages `gone` back, one after the other.
    pub open spec fn discards(&self, gone: Seq<u64>) -> Seq<Request> {
        Seq::new(
            gone.len(),
            |i: int|
                Request::Discard {
                    offset: (gone[i] * self.page_bytes()) as u64,
                    len: self.len_of(gone[i] as int) as u64,
                },
        )
    }

    /// The request that writes page `p` back to the inner backend.
    pub open spec fn write_back(&self, p: int) -> Request {
        let at = p * self.page_bytes();
        Request::Write { offset: at as u64, data: self.bytes().subrange(at, at + self.len_of(p)) }
    }

    /// The requests that write the dirty ones of the first `n` pages back.
    pub open spec fn write_backs(&self, n: int) -> Seq<Request>
        decreases n,
    {
        if n <= 0 {
            Seq::empty()
        } else if self.changed(n - 1) {
            self.write_backs(n - 1).push(self.write_back(n - 1))
        } else {
            self.write_backs(n - 1)
        }
    }

    /// Size of a page.
    pub closed spec fn page_bytes(&self) -> u64 {
        self.page_size
    }

    /// Number of pages.
    pub closed spec fn page_total(&self) -> u64 {
        self.num_pages
    }

    /// Page `p` is in the data file.
    pub closed spec fn here(&self, p: int) -> bool {
        bitmap::bit(self.present@, p)
    }

    /// Page `p` is in the data file and not yet in the inner backend.
    pub closed spec fn changed(&self, p: int) -> bool {
        bitmap::bit(self.dirty@, p)
    }

    /// Dirty pages whose bits may be missing in the metadata file.
    pub closed spec fn unsaved(&self) -> Set<u64> {
        self.unsaved@
    }

    spec fn ps(&self) -> int {
        self.page_size as int
    }

    spec fn bm(&self) -> int {
        bitmap::bytes_for(self.num_pages as int)
    }

    spec fn img(&self) -> Seq<u8> {
        cache_meta::padded(self.head@ + self.present@ + self.dirty@)
    }

    spec fn byte_at(&self, i: int) -> u8 {
        if self.here(i / self.ps()) {
            self.data.bytes()[i]
        } else {
            self.inner.bytes()[i]
        }
    }

    /// Whatever a crash leaves in the metadata file has the fields of the header that
    /// a restart looks at.
    spec fn head_firm(&self) -> bool {
        &&& self.meta.durable().len() == self.meta.bytes().len()
        &&& forall|i: int, x: u8|
            (0 <= i < 12 || 16 <= i < 32) && #[trigger] backend::may_hold(self.meta, i, x) ==> x
                == self.head@[i]
    }

    /// Whatever a crash leaves in the metadata file has the bits of page `p`.
    spec fn bits_firm(&self, p: int) -> bool {
        &&& forall|x: u8| #[trigger]
            backend::may_hold(self.meta, 64 + p / 8, x) ==> bitmap::bit_in(x, p)
        &&& forall|x: u8| #[trigger]
            backend::may_hold(self.meta, 64 + self.bm() + p / 8, x) ==> bitmap::bit_in(x, p)
    }

    /// Whatever a crash leaves in the data file has the bytes of page `p`.
    spec fn data_firm(&self, p: int) -> bool {
        &&& self.data.durable().len() == self.dev_size
        &&& forall|i: int, x: u8|
            0 <= i < self.dev_size && i / self.ps() == p && #[trigger] backend::may_hold(
                self.data,
                i,
                x,
            ) ==> x == self.data.bytes()[i]
    }

    /// Both files have dirty page `p` on durable storage, its bytes and its bits, and
    /// will whatever becomes of what is still on its way there.
    pub closed spec fn saved(&self, p: int) -> bool {
        &&& self.head_firm()
        &&& self.bits_firm(p)
        &&& self.data_firm(p)
    }

    /// Outside page `p` the data file holds, and may come to hold, nothing that it
    /// could not before.
    spec fn apart(&self, o: Self, p: int) -> bool {
        &&& self.data.durable().len() == o.data.durable().len() || self.data.durable().len()
            == o.data.bytes().len()
        &&& forall|i: int, x: u8|
            0 <= i < o.dev_size && i / o.ps() != p && #[trigger] backend::may_hold(self.data, i, x)
                ==> backend::may_hold(o.data, i, x)
    }

    /// A change of page `p` leaves the other pages alone.
    proof fn lemma_apart(&self, o: Self, p: int, goal: Seq<u8>)
        requires
            o.data.bytes().len() == o.dev_size,
            backend::drifted(self.data, o.data, goal, goal),
            forall|i: int|
                0 <= i < o.dev_size && i / o.ps() != p ==> #[trigger] goal[i] == o.data.bytes()[i],
        ensures
            self.apart(o, p),
    {
        assert forall|i: int, x: u8|
            0 <= i < o.dev_size && i / o.ps() != p && #[trigger] backend::may_hold(self.data, i, x)
            implies backend::may_hold(o.data, i, x) by {
            assert(x == goal[i] ==> x == o.data.bytes()[i]);
        }
    }

    /// Page `p` stays saved while another page changes in the data file and blocks of
    /// the metadata are stored.
    proof fn lemma_saved_kept(a: Self, b: Self, p: int, other: int)
        requires
            a.saved(p),
            0 <= p < a.num_pages,
            p != other,
            a.num_pages == page_count(a.dev_size as int, a.ps()),
            a.dev_size > 0,
            a.page_size > 0,
            a.head@ == cache_meta::header(a.page_size, a.dev_size, a.num_pages),
            a.head@.len() == 64,
            a.present@.len() == a.bm(),
            a.dirty@.len() == a.bm(),
            a.meta.bytes().len() >= a.img().len(),
            bitmap::bit(a.present@, p),
            bitmap::bit(a.dirty@, p),
            b.page_size == a.page_size,
            b.dev_size == a.dev_size,
            b.num_pages == a.num_pages,
            b.head@ == a.head@,
            a.data.bytes().len() == a.dev_size,
            b.meta.bytes().len() == a.meta.bytes().len(),
            b.apart(a, other),
            backend::drifted(b.meta, a.meta, a.meta.bytes(), a.img()),
        ensures
            b.saved(p),
    {
        let n = a.bm();
        assert(a.img().len() >= 64 + 2 * n);
        assert(a.img()[64 + p / 8] == a.present@[p / 8]);
        assert(a.img()[64 + n + p / 8] == a.dirty@[p / 8]);
        assert(b.data_firm(p)) by {
            assert forall|i: int, x: u8|
                0 <= i < b.dev_size && i / b.ps() == p && #[trigger] backend::may_hold(b.data, i, x)
                implies x == b.data.bytes()[i] by {
                assert(backend::may_hold(a.data, i, x));
                assert(backend::may_hold(b.data, i, b.data.bytes()[i]));
                assert(backend::may_hold(a.data, i, b.data.bytes()[i]));
            }
        }
        assert(b.head_firm()) by {
            assert forall|i: int, x: u8|
                (0 <= i < 12 || 16 <= i < 32) && #[trigger] backend::may_hold(b.meta, i, x) implies x
                == b.head@[i] by {
                assert(a.img()[i] == a.head@[i]);
                assert(backend::may_hold(a.meta, i, a.meta.bytes()[i]));
            }
        }
        assert(b.bits_firm(p)) by {
            assert forall|x: u8| #[trigger]
                backend::may_hold(b.meta, 64 + p / 8, x) implies bitmap::bit_in(x, p) by {
                assert(backend::may_hold(a.meta, 64 + p / 8, a.meta.bytes()[64 + p / 8]));
            }
            assert forall|x: u8| #[trigger]
                backend::may_hold(b.meta, 64 + b.bm() + p / 8, x) implies bitmap::bit_in(x, p) by {
                assert(backend::may_hold(a.meta, 64 + n + p / 8, a.meta.bytes()[64 + n + p / 8]));
            }
        }
    }

    spec fn shape(&self) -> bool {
        &&& self.inner.valid()
        &&& self.data.valid()
        &&& self.meta.valid()
        &&& 0 < self.page_size <= usize::MAX
        &&& self.page_size % 512 == 0
        &&& self.dev_size > 0
        &&& self.num_pages == page_count(self.dev_size as int, self.ps())
        &&& self.present@.len() == self.bm()
        &&& self.dirty@.len() == self.bm()
        &&& self.head@ == cache_meta::header(self.page_size, self.dev_size, self.num_pages)
        &&& self.head@.len() == 64
        &&& self.inner.bytes().len() >= self.dev_size
        &&& self.data.bytes().len() == self.dev_size
        &&& self.meta.bytes().len() >= self.img().len()
        &&& self.meta.bytes().len() % 512 == 0
        &&& self.budget is Some ==> self.lru.wf()
    }

    spec fn lru_ok(&self) -> bool {
        self.budget is Some ==> {
            &&& forall|p: u64| #[trigger]
                self.lru.clean().contains(p) ==> p < self.num_pages && self.here(p as int)
                    && !self.changed(p as int)
            &&& self.booked()
        }
    }

    /// Every page on account is in the data file, and their lengths make up the
    /// resident bytes.
    spec fn booked(&self) -> bool {
        &&& forall|p: u64| #[trigger]
            self.lru.stamps().contains_key(p) ==> p < self.num_pages && self.here(p as int)
        &&& self.resident == booked_bytes(
            self.lru.stamps().dom(),
            self.dev_size as int,
            self.ps(),
            self.num_pages as int,
        )
    }

    spec fn recorded(&self) -> bool {
        forall|p: int|
            0 <= p < self.num_pages && #[trigger] self.changed(p) && !self.unsaved@.contains(p as u64)
                ==> self.saved(p)
    }

    /// The metadata file begins with a header for this page size and device size.
    spec fn fits(&self) -> bool {
        let m = self.meta.bytes();
        &&& m.subrange(0, 8) == cache_meta::magic()
        &&& m.subrange(8, 12) == wire::le(cache_meta::VERSION as nat, 4)
        &&& m.subrange(16, 24) == wire::le(self.page_size as nat, 8)
        &&& m.subrange(24, 32) == wire::le(self.dev_size as nat, 8)
    }

    spec fn wf(&self) -> bool {
        &&& self.shape()
        &&& self.fits()
        &&& coherent(
            self.data.bytes(),
            self.inner.bytes(),
            self.present@,
            self.dirty@,
            self.ps(),
            self.dev_size as int,
        )
        &&& self.lru_ok()
        &&& self.recorded()
        &&& self.shared_ok()
    }

    /// Page `p` is on record in the shared index as published here.
    pub closed spec fn shown(&self, p: u64) -> bool {
        shown_in(self.index, p)
    }

    /// The shared index has always given back what was published here.
    pub closed spec fn faithful(&self) -> bool {
        self.faithful@
    }

    /// What peers may read here is clean.
    spec fn shared_ok(&self) -> bool {
        self.faithful@ ==> shows_clean_only(self.index, self.present@, self.dirty@, self.num_pages)
    }

    /// How many fair requests the inner backend and the two files have failed.
    pub closed spec fn store_faults(&self) -> nat {
        self.inner.faults() + self.data.faults() + self.meta.faults()
    }

    /// The cache is set up as `o` is: its page size, and whether it has a budget, can
    /// evict pages and shares them.
    pub open spec fn same_setup(&self, o: Self) -> bool {
        &&& self.page_bytes() == o.page_bytes()
        &&& self.budgeted() == o.budgeted()
        &&& self.evicts() == o.evicts()
        &&& self.sharing() is Some == o.sharing() is Some
    }

    /// The same cache with the same pages saved, though perhaps others in the data file.
    pub open spec fn undisturbed(&self, o: Self) -> bool {
        &&& self.same_setup(o)
        &&& self.even() == o.even()
        &&& self.page_total() == o.page_total()
        &&& self.unsaved() == o.unsaved()
    }

    /// The recency clock of the pages on account.
    pub closed spec fn ticks(&self) -> u64 {
        self.lru.clock()
    }

    /// The recency clock of the pages on account has run out.
    pub closed spec fn spent(&self) -> bool {
        self.budget is Some && self.lru.clock() == u64::MAX
    }

    /// The bitmaps in the metadata file are those of the pages.
    pub closed spec fn filed(&self) -> bool {
        holds_bits(self.meta.bytes(), self.present@, self.dirty@)
    }

    /// Whatever a crash leaves in the metadata file fits this cache and names the dirty
    /// pages, and no others.
    pub closed spec fn pinned(&self) -> bool {
        holds_firmly(self.meta, self.head@, self.dirty@)
    }

    /// While a budget is active and its clock runs, every page in the data file is on
    /// account, and every clean one may be dropped.
    pub closed spec fn tidy(&self) -> bool {
        self.tidy_but(None)
    }

    spec fn tidy_but(&self, but: Option<u64>) -> bool {
        self.budget is Some && self.lru.clock() < u64::MAX ==> books_match(
            self.lru,
            self.present@,
            self.dirty@,
            self.num_pages,
            but,
        )
    }

    /// The metadata file and the books are kept as they should be as long as no store
    /// fails.
    pub open spec fn orderly(&self, o: Self) -> bool {
        self.store_faults() == o.store_faults() && o.bytes().len() % 512 == 0 ==> {
            &&& o.filed() ==> self.filed()
            &&& o.pinned() ==> self.pinned()
            &&& o.tidy() ==> self.tidy()
        }
    }

    /// Blocks of metadata that were stored match the bitmaps where they did before, and
    /// at the bytes of page `p`.
    proof fn lemma_filed(&self, o: Self, p: int)
        requires
            o.filed(),
            0 <= p,
            p / 8 < o.bm(),
            self.num_pages == o.num_pages,
            self.head@.len() == 64,
            self.present@.len() == self.bm(),
            self.dirty@.len() == self.bm(),
            o.present@.len() == self.bm(),
            o.dirty@.len() == self.bm(),
            forall|k: int|
                0 <= k < self.bm() && k != p / 8 ==> #[trigger] self.present@[k] == o.present@[k],
            forall|k: int|
                0 <= k < self.bm() && k != p / 8 ==> #[trigger] self.dirty@[k] == o.dirty@[k],
            forall|i: int|
                0 <= i < self.img().len() && o.meta.bytes()[i] == self.img()[i]
                    ==> #[trigger] self.meta.bytes()[i] == self.img()[i],
            self.meta.bytes()[64 + p / 8] == self.present@[p / 8],
            self.meta.bytes()[64 + self.bm() + p / 8] == self.dirty@[p / 8],
        ensures
            self.filed(),
    {
        reveal(holds_bits);
        let n = self.bm();
        let m = self.meta.bytes();
        assert(self.img().len() >= 64 + 2 * n);
        assert forall|i: int| 0 <= i < self.present@.len() implies m[64 + i]
            == #[trigger] self.present@[i] by {
            assert(self.img()[64 + i] == self.present@[i]);
            if i != p / 8 {
                assert(o.meta.bytes()[64 + i] == o.present@[i]);
            }
        }
        assert forall|i: int| 0 <= i < self.dirty@.len() implies m[64 + self.present@.len() + i]
            == #[trigger] self.dirty@[i] by {
            assert(self.img()[64 + n + i] == self.dirty@[i]);
            if i != p / 8 {
                assert(o.meta.bytes()[64 + o.present@.len() + i] == o.dirty@[i]);
            }
        }
    }

    /// The stored byte of either bitmap.
    proof fn lemma_filed_byte(&self, k: int)
        requires
            self.filed(),
            self.present@.len() == self.bm(),
            self.dirty@.len() == self.bm(),
            0 <= k < self.bm(),
        ensures
            self.meta.bytes()[64 + k] == self.present@[k],
            self.meta.bytes()[64 + self.bm() + k] == self.dirty@[k],
    {
        reveal(holds_bits);
        assert(self.present@[k] == self.meta.bytes()[64 + k]);
        assert(self.dirty@[k] == self.meta.bytes()[64 + self.present@.len() + k]);
    }

    /// What is pinned stays so while the metadata file drifts towards what it holds or
    /// what it should.
    proof fn lemma_pinned(&self, o: Self, goal: Seq<u8>)
        requires
            o.pinned(),
            self.head == o.head,
            self.dirty@ == o.dirty@,
            o.dirty@.len() == o.bm(),
            o.meta.bytes().len() >= 64 + 2 * o.bm(),
            self.meta.bytes().len() == o.meta.bytes().len(),
            backend::drifted(self.meta, o.meta, o.meta.bytes(), goal),
            forall|i: int|
                0 <= i < 12 || 16 <= i < 32 ==> #[trigger] goal[i] == o.head@[i] || goal[i]
                    == o.meta.bytes()[i],
            forall|i: int|
                64 + o.bm() <= i < 64 + 2 * o.bm() ==> #[trigger] goal[i] == o.dirty@[i - 64
                    - o.bm()] || goal[i] == o.meta.bytes()[i],
        ensures
            self.pinned(),
    {
        reveal(holds_firmly);
        assert forall|i: int, x: u8|
            (0 <= i < 12 || 16 <= i < 32) && #[trigger] backend::may_hold(self.meta, i, x) implies x
            == self.head@[i] by {
            assert(backend::may_hold(o.meta, i, o.meta.bytes()[i]));
        }
        assert forall|i: int, x: u8|
            0 <= i - 64 - self.dirty@.len() < self.dirty@.len() && #[trigger] backend::may_hold(
                self.meta,
                i,
                x,
            ) implies x == self.dirty@[i - 64 - self.dirty@.len()] by {
            assert(backend::may_hold(o.meta, i, o.meta.bytes()[i]));
        }
    }

    /// Metadata that is on durable storage, with the bitmaps, is pinned.
    proof fn lemma_settled_is_pinned(&self)
        requires
            self.shape(),
            self.fits(),
            self.filed(),
            backend::settled(self.meta),
        ensures
            self.pinned(),
    {
        reveal(holds_firmly);
        self.lemma_fitting_head();
        let n = self.bm();
        assert(self.img().len() >= 64 + 2 * n);
        assert forall|i: int, x: u8|
            0 <= i - 64 - self.dirty@.len() < self.dirty@.len() && #[trigger] backend::may_hold(
                self.meta,
                i,
                x,
            ) implies x == self.dirty@[i - 64 - self.dirty@.len()] by {
            self.lemma_filed_byte(i - 64 - n);
        }
    }

    /// No failed request is forgotten, and the cache is set up as before.
    spec fn counts(&self, o: Self) -> bool {
        &&& self.inner.faults() >= o.inner.faults()
        &&& self.data.faults() >= o.data.faults()
        &&& self.meta.faults() >= o.meta.faults()
        &&& self.declined@ >= o.declined@
        &&& self.asked == o.asked
        &&& self.page_size == o.page_size
        &&& self.budget is Some == o.budget is Some
        &&& self.index is Some == o.index is Some
        &&& self.eviction_supported == o.eviction_supported
    }

    /// No failed request is forgotten, and the cache is in order as before.
    spec fn grew(&self, o: Self) -> bool {
        &&& self.counts(o)
        &&& self.orderly(o)
    }

    /// No failed request is forgotten, and the inner backend was at most read.
    spec fn grows(&self, o: Self) -> bool {
        &&& self.grew(o)
        &&& self.inner.bytes() == o.inner.bytes()
        &&& self.inner.durable() == o.inner.durable()
        &&& forall|i: int, b: u8| #[trigger] self.inner.afloat(i, b) ==> o.inner.afloat(i, b)
    }

    /// Everything but the metadata file is the same, and it is in order as before.
    spec fn same_but_meta(&self, o: Self) -> bool {
        &&& self.meta_apart(o)
        &&& self.grows(o)
    }

    /// Everything but the metadata file is the same.
    spec fn meta_apart(&self, o: Self) -> bool {
        &&& self.inner == o.inner
        &&& self.data == o.data
        &&& self.page_size == o.page_size
        &&& self.dev_size == o.dev_size
        &&& self.num_pages == o.num_pages
        &&& self.head == o.head
        &&& self.present == o.present
        &&& self.dirty == o.dirty
        &&& self.resident == o.resident
        &&& self.lru == o.lru
        &&& self.budget == o.budget
        &&& self.index == o.index
        &&& self.eviction_supported == o.eviction_supported
        &&& self.unsaved == o.unsaved
        &&& self.faithful == o.faithful
        &&& self.counts(o)
    }

    /// Store the 512-byte block of metadata that holds byte `at`.
    fn put_block(&mut self, at: u64) -> (r: Result<(), BackendError>)
        requires
            old(self).shape(),
            at < old(self).img().len(),
        ensures
            final(self).shape(),
            final(self).meta_apart(*old(self)),
            final(self).meta.bytes().len() == old(self).meta.bytes().len(),
            forall|i: int|
                0 <= i < old(self).img().len() ==> #[trigger] final(self).meta.bytes()[i] == old(
                    self,
                ).meta.bytes()[i] || final(self).meta.bytes()[i] == old(self).img()[i],
            r is Err ==> final(self).meta.faults() > old(self).meta.faults(),
            r is Ok ==> final(self).meta.bytes()[at as int] == old(self).img()[at as int],
            r is Ok ==> forall|i: int|
                0 <= i < old(self).img().len() && old(self).meta.bytes()[i] == old(self).img()[i]
                    ==> #[trigger] final(self).meta.bytes()[i] == old(self).img()[i],
            backend::drifted(
                final(self).meta,
                old(self).meta,
                old(self).meta.bytes(),
                old(self).img(),
            ),
    {
        let block: u64 = at / 512 * 512;
        proof {
            lemma_page_count(self.dev_size as int, self.ps());
            assert(self.img().len() % 512 == 0);
        }
        let part = cache_meta::image_part(&self.head, &self.present, &self.dirty, block, 512);
        let ghost before = self.meta.bytes();
        let ghost after = backend::splice(before, block as int, part@);
        let r = self.meta.write(block, &part);
        proof {
            assert forall|i: int| 0 <= i < self.img().len() implies #[trigger] self.meta.bytes()[i]
                == before[i] || self.meta.bytes()[i] == self.img()[i] by {
                assert(after[i] == before[i] || after[i] == self.img()[i]);
            }
            backend::a_change_drifts(self.meta, old(self).meta, after);
            assert forall|i: int, b: u8|
                0 <= i < old(self).meta.bytes().len() && #[trigger] backend::may_hold(self.meta, i, b)
                implies backend::may_hold(old(self).meta, i, b) || b == before[i] || b == self.img()[i] by {
                assert(b == after[i] ==> b == before[i] || b == self.img()[i]);
            }
        }
        r
    }

    /// Store the 512-byte block of metadata that holds byte `at`, and keep the file in
    /// order.
    fn write_block(&mut self, at: u64) -> (r: Result<(), BackendError>)
        requires
            old(self).shape(),
            at < old(self).img().len(),
        ensures
            final(self).shape(),
            final(self).same_but_meta(*old(self)),
            final(self).meta.bytes().len() == old(self).meta.bytes().len(),
            forall|i: int|
                0 <= i < old(self).img().len() ==> #[trigger] final(self).meta.bytes()[i] == old(
                    self,
                ).meta.bytes()[i] || final(self).meta.bytes()[i] == old(self).img()[i],
            r is Err ==> final(self).meta.faults() > old(self).meta.faults(),
            r is Ok ==> final(self).meta.bytes()[at as int] == old(self).img()[at as int],
            r is Ok ==> forall|i: int|
                0 <= i < old(self).img().len() && old(self).meta.bytes()[i] == old(self).img()[i]
                    ==> #[trigger] final(self).meta.bytes()[i] == old(self).img()[i],
            backend::drifted(
                final(self).meta,
                old(self).meta,
                old(self).meta.bytes(),
                old(self).img(),
            ),
    {
        let r = self.put_block(at);
        proof {
            if r is Ok && old(self).filed() {
                lemma_page_count(self.dev_size as int, self.ps());
                old(self).lemma_filed_byte(0);
                assert(self.img()[64] == self.present@[0]);
                assert(self.img()[64 + self.bm()] == self.dirty@[0]);
                self.lemma_filed(*old(self), 0);
            }
            if old(self).pinned() {
                self.lemma_pinned_write(*old(self));
            }
        }
        r
    }

    /// A stored block of metadata leaves what is pinned so.
    proof fn lemma_pinned_write(&self, o: Self)
        requires
            o.shape(),
            o.pinned(),
            self.head == o.head,
            self.dirty == o.dirty,
            self.meta.bytes().len() == o.meta.bytes().len(),
            backend::drifted(self.meta, o.meta, o.meta.bytes(), o.img()),
        ensures
            self.pinned(),
    {
        let n = o.bm();
        assert(o.img().len() >= 64 + 2 * n);
        assert forall|i: int| 0 <= i < 12 || 16 <= i < 32 implies #[trigger] o.img()[i] == o.head@[i] by {}
        assert forall|i: int| 64 + n <= i < 64 + 2 * n implies #[trigger] o.img()[i] == o.dirty@[i - 64
            - n] by {}
        self.lemma_pinned(o, o.img());
    }

    /// The same contents, bitmaps and files make the same well-formed cache.
    proof fn lemma_wf_same(a: Self, b: Self)
        requires
            a.wf(),
            b.inner.valid(),
            b.data.valid(),
            b.meta.valid(),
            b.inner.bytes() == a.inner.bytes(),
            b.data.bytes() == a.data.bytes(),
            b.meta.bytes() == a.meta.bytes(),
            b.page_size == a.page_size,
            b.dev_size == a.dev_size,
            b.num_pages == a.num_pages,
            b.head == a.head,
            b.present == a.present,
            b.dirty == a.dirty,
            b.unsaved == a.unsaved,
            b.budget is Some ==> b.lru.wf(),
            b.lru_ok(),
            b.shared_ok(),
            b.recorded() || backend::drifted(b.data, a.data, a.data.bytes(), a.data.bytes())
                && backend::drifted(b.meta, a.meta, a.meta.bytes(), a.meta.bytes()),
        ensures
            b.wf(),
            b.bytes() == a.bytes(),
    {
        assert(b.bytes() =~= a.bytes());
        if !b.recorded() {
            lemma_page_count(a.dev_size as int, a.ps());
            assert forall|q: int|
                0 <= q < b.num_pages && #[trigger] b.changed(q) && !b.unsaved@.contains(q as u64)
                implies b.saved(q) by {
                assert(a.changed(q));
                assert(bitmap::bit(a.dirty@, q));
                b.lemma_apart(a, -1, a.data.bytes());
                Self::lemma_saved_kept(a, b, q, -1);
            }
        }
    }

    /// A block write keeps the stored bits of dirty pages.
    proof fn lemma_recorded_kept(a: Self, b: Self)
        requires
            a.shape(),
            b.shape(),
            b.same_but_meta(a),
            a.recorded(),
            a.fits(),
            forall|p: int| 0 <= p < a.num_pages && #[trigger] a.changed(p) ==> a.here(p),
            forall|i: int|
                0 <= i < a.img().len() ==> #[trigger] b.meta.bytes()[i] == a.meta.bytes()[i]
                    || b.meta.bytes()[i] == a.img()[i],
            b.meta.bytes().len() == a.meta.bytes().len(),
            backend::drifted(b.meta, a.meta, a.meta.bytes(), a.img()),
        ensures
            b.recorded(),
            b.fits(),
    {
        let am = a.meta.bytes();
        let bm = b.meta.bytes();
        let h = a.head@;
        cache_meta::lemma_header(a.page_size, a.dev_size, a.num_pages);
        assert(a.img().len() >= 64);
        assert forall|i: int| 0 <= i < 64 implies #[trigger] a.img()[i] == h[i] by {}
        assert(bm.subrange(0, 8) =~= am.subrange(0, 8)) by {
            assert forall|i: int| 0 <= i < 8 implies bm[i] == am[i] by {
                assert(am.subrange(0, 8)[i] == h.subrange(0, 8)[i]);
                assert(a.img()[i] == h[i]);
            }
        }
        assert(bm.subrange(8, 12) =~= am.subrange(8, 12)) by {
            assert forall|i: int| 8 <= i < 12 implies bm[i] == am[i] by {
                assert(am.subrange(8, 12)[i - 8] == h.subrange(8, 12)[i - 8]);
                assert(a.img()[i] == h[i]);
            }
        }
        assert(bm.subrange(16, 24) =~= am.subrange(16, 24)) by {
            assert forall|i: int| 16 <= i < 24 implies bm[i] == am[i] by {
                assert(am.subrange(16, 24)[i - 16] == h.subrange(16, 24)[i - 16]);
                assert(a.img()[i] == h[i]);
            }
        }
        assert(bm.subrange(24, 32) =~= am.subrange(24, 32)) by {
            assert forall|i: int| 24 <= i < 32 implies bm[i] == am[i] by {
                assert(am.subrange(24, 32)[i - 24] == h.subrange(24, 32)[i - 24]);
                assert(a.img()[i] == h[i]);
            }
        }
        assert forall|p: int|
            0 <= p < b.num_pages && #[trigger] b.changed(p) && !b.unsaved@.contains(p as u64) implies b.saved(
            p,
        ) by {
            assert(a.changed(p));
            assert(a.saved(p));
            assert(a.here(p));
            b.lemma_apart(a, -1, a.data.bytes());
            Self::lemma_saved_kept(a, b, p, -1);
        }
    }

    /// The fields that a restart looks at are those of the header.
    proof fn lemma_fitting_head(&self)
        requires
            self.shape(),
            self.fits(),
        ensures
            forall|i: int|
                0 <= i < 12 || 16 <= i < 32 ==> #[trigger] self.meta.bytes()[i] == self.head@[i],
    {
        let m = self.meta.bytes();
        let h = self.head@;
        cache_meta::lemma_header(self.page_size, self.dev_size, self.num_pages);
        assert(self.img().len() >= 64);
        assert forall|i: int| 0 <= i < 12 || 16 <= i < 32 implies #[trigger] m[i] == h[i] by {
            if i < 8 {
                assert(m.subrange(0, 8)[i] == h.subrange(0, 8)[i]);
            } else if i < 12 {
                assert(m.subrange(8, 12)[i - 8] == h.subrange(8, 12)[i - 8]);
            } else if i < 24 {
                assert(m.subrange(16, 24)[i - 16] == h.subrange(16, 24)[i - 16]);
            } else {
                assert(m.subrange(24, 32)[i - 24] == h.subrange(24, 32)[i - 24]);
            }
        }
    }

    /// Store the present bit of page `p`, if that works: losing it costs a read.
    fn save_present(&mut self, p: u64)
        requires
            old(self).wf(),
            p < old(self).num_pages,
        ensures
            final(self).wf(),
            final(self).same_but_meta(*old(self)),
            final(self).bytes() == old(self).bytes(),
            final(self).meta.faults() == old(self).meta.faults()
                ==> final(self).meta.bytes()[64 + p as int / 8] == old(self).present@[p as int / 8],
            final(self).meta.faults() == old(self).meta.faults() ==> forall|i: int|
                0 <= i < old(self).img().len() && old(self).meta.bytes()[i] == old(self).img()[i]
                    ==> #[trigger] final(self).meta.bytes()[i] == old(self).img()[i],
    {
        proof {
            lemma_page_count(self.dev_size as int, self.ps());
        }
        let r = self.write_block(64 + p / 8);
        proof {
            Self::lemma_recorded_kept(*old(self), *self);
            assert(self.bytes() =~= old(self).bytes());
            assert(old(self).img()[64 + p as int / 8] == old(self).present@[p as int / 8]);
        }
    }

    /// Store both bits of page `p` and make them durable.
    fn persist_meta_bit(&mut self, p: u64) -> (r: Result<(), BackendError>)
        requires
            old(self).wf(),
            p < old(self).num_pages,
        ensures
            final(self).wf(),
            final(self).same_but_meta(*old(self)),
            final(self).bytes() == old(self).bytes(),
            r is Err ==> final(self).meta.faults() > old(self).meta.faults(),
            r is Ok && old(self).changed(p as int) && old(self).data_firm(p as int)
                ==> final(self).saved(p as int),
            r is Ok ==> {
                &&& backend::settled(final(self).meta)
                &&& final(self).meta.bytes()[64 + p as int / 8] == old(self).present@[p as int / 8]
                &&& final(self).meta.bytes()[64 + old(self).bm() + p as int / 8] == old(
                    self,
                ).dirty@[p as int / 8]
                &&& forall|i: int|
                    0 <= i < old(self).img().len() && old(self).meta.bytes()[i] == old(self).img()[i]
                        ==> #[trigger] final(self).meta.bytes()[i] == old(self).img()[i]
            },
    {
        proof {
            lemma_page_count(self.dev_size as int, self.ps());
        }
        let n: u64 = self.present.len() as u64;
        let ghost k = p as int / 8;
        let a = self.write_block(64 + p / 8);
        proof {
            Self::lemma_recorded_kept(*old(self), *self);
            assert(self.bytes() =~= old(self).bytes());
        }
        match a {
            Ok(()) => {},
            Err(e) => {
                return Err(e);
            },
        }
        let ghost one = *self;
        let b = self.write_block(64 + n + p / 8);
        proof {
            Self::lemma_recorded_kept(one, *self);
            assert(self.bytes() =~= old(self).bytes());
        }
        match b {
            Ok(()) => {},
            Err(e) => {
                return Err(e);
            },
        }
        let ghost two = *self;
        let c = self.meta.flush();
        proof {
            assert(self.bytes() =~= old(self).bytes());
            backend::a_change_drifts(self.meta, two.meta, two.meta.bytes());
            assert(self.recorded()) by {
                assert forall|q: int|
                    0 <= q < self.num_pages && #[trigger] self.changed(q) && !self.unsaved@.contains(
                        q as u64,
                    ) implies self.saved(q) by {
                    assert(two.changed(q));
                    assert(bitmap::bit(two.dirty@, q));
                    self.lemma_apart(two, -1, two.data.bytes());
                    Self::lemma_saved_kept(two, *self, q, -1);
                }
            }
            if two.pinned() {
                self.lemma_pinned(two, two.meta.bytes());
            }
            assert(one.img()[64 + k] == self.present@[k]);
            assert(one.img()[64 + n + k] == self.dirty@[k]);
            assert(one.meta.bytes()[64 + k] == one.img()[64 + k]);
            assert(self.meta.bytes()[64 + k] == self.present@[k]);
            assert(self.meta.bytes()[64 + n + k] == self.dirty@[k]);
            assert forall|i: int|
                0 <= i < old(self).img().len() && old(self).meta.bytes()[i] == old(self).img()[i]
                implies #[trigger] self.meta.bytes()[i] == old(self).img()[i] by {
                assert(one.meta.bytes()[i] == old(self).img()[i]);
                assert(two.meta.bytes()[i] == old(self).img()[i]);
            }
            if c is Ok && old(self).changed(p as int) && old(self).data_firm(p as int) {
                assert(bitmap::bit(self.dirty@, p as int));
                assert(bitmap::bit(self.present@, p as int));
                self.lemma_fitting_head();
                assert(self.bits_firm(p as int));
                assert(self.head_firm());
                assert(self.data_firm(p as int));
            }
        }
        c
    }

    /// Valid byte length of page `p` (the last page may be short).
    fn page_len(&self, p: u64) -> (r: u64)
        requires
            self.shape(),
            p < self.num_pages,
        ensures
            r == self.len_of(p as int),
            0 < r <= self.page_size,
            p * self.page_size + r <= self.dev_size,
    {
        proof {
            lemma_page_count(self.dev_size as int, self.ps());
            pages::lemma_in_page(self.ps(), p as int, 0);
            assert((p as int * self.ps()) < self.dev_size);
        }
        let rest: u64 = self.dev_size - p * self.page_size;
        if rest < self.page_size {
            rest
        } else {
            self.page_size
        }
    }

    /// The length of page `p`: the last one may be short.
    pub open spec fn len_of(&self, p: int) -> int {
        let rest = self.bytes().len() - p * self.page_bytes();
        if rest < self.page_bytes() {
            rest
        } else {
            self.page_bytes() as int
        }
    }

    /// The bytes of page `p` are those whose offset divides to it.
    proof fn lemma_page_bytes(&self, p: int, i: int)
        requires
            self.shape(),
            0 <= p < self.num_pages,
            0 <= i < self.dev_size,
        ensures
            (i / self.ps() == p) == (p * self.ps() <= i < p * self.ps() + self.len_of(p)),
            0 <= i / self.ps() < self.num_pages,
    {
        lemma_page_count(self.dev_size as int, self.ps());
        pages::lemma_split(self.ps(), i);
        let q = i / self.ps();
        if q < p {
            pages::lemma_page_order(self.ps(), q, p);
        } else if q > p {
            pages::lemma_page_order(self.ps(), p, q);
        }
    }

    /// A change of page `p` in the data file, which is not dirty, leaves the dirty pages
    /// saved.
    proof fn lemma_recorded_apart(&self, o: Self, p: u64)
        requires
            o.wf(),
            !o.changed(p as int),
            self.apart(o, p as int),
            self.meta == o.meta,
            self.page_size == o.page_size,
            self.dev_size == o.dev_size,
            self.num_pages == o.num_pages,
            self.head == o.head,
            self.dirty == o.dirty,
            self.unsaved == o.unsaved,
        ensures
            self.recorded(),
    {
        lemma_page_count(o.dev_size as int, o.ps());
        assert forall|q: int|
            0 <= q < self.num_pages && #[trigger] self.changed(q) && !self.unsaved@.contains(q as u64)
            implies self.saved(q) by {
            assert(o.changed(q));
            assert(bitmap::bit(o.dirty@, q));
            Self::lemma_saved_kept(o, *self, q, p as int);
        }
    }

    /// Nothing of page `p` is left in the cache after a successful discard.
    fn drop_page(&mut self, p: u64) -> (r: Result<(), BackendError>)
        requires
            old(self).wf(),
            p < old(self).num_pages,
            old(self).here(p as int),
            !old(self).changed(p as int),
            old(self).budget is Some ==> !old(self).lru.stamps().contains_key(p),
            !old(self).shown(p),
        ensures
            final(self).wf(),
            final(self).bytes() == old(self).bytes(),
            final(self).durable() == old(self).durable(),
            old(self).faithful() ==> final(self).faithful(),
            final(self).inner == old(self).inner,
            final(self).grows(*old(self)),
            r is Err && old(self).dev_size % 512 == 0 ==> final(self).data.faults()
                > old(self).data.faults(),
            final(self).data.requests() == old(self).data.requests() + old(self).discards(seq![p]),
            final(self).lru == old(self).lru,
            final(self).resident == old(self).resident,
            final(self).budget == old(self).budget,
            final(self).index == old(self).index,
            final(self).dirty == old(self).dirty,
            final(self).unsaved == old(self).unsaved,
            final(self).faithful == old(self).faithful,
            final(self).num_pages == old(self).num_pages,
            final(self).page_size == old(self).page_size,
            final(self).dev_size == old(self).dev_size,
            final(self).eviction_supported == old(self).eviction_supported,
            forall|q: int|
                0 <= q ==> #[trigger] final(self).here(q) == (old(self).here(q) && !(q == p && r is Ok)),
    {
        let len = self.page_len(p);
        let offset: u64 = p * self.page_size;
        proof {
            pages::lemma_page_aligned(self.ps(), p as int);
        }
        let ghost goal = backend::splice(self.data.bytes(), offset as int, backend::zeros(len as nat));
        let d = self.data.discard(offset, len);
        proof {
            assert(self.data.requests() =~= old(self).data.requests() + old(self).discards(seq![p]));
            backend::a_change_drifts(self.data, old(self).data, goal);
            assert forall|i: int| 0 <= i < self.dev_size && i / self.ps() != p implies #[trigger] goal[i]
                == old(self).data.bytes()[i] by {
                old(self).lemma_page_bytes(p as int, i);
            }
            self.lemma_apart(*old(self), p as int, goal);
            self.lemma_recorded_apart(*old(self), p);
        }
        match d {
            Ok(()) => {},
            Err(e) => {
                proof {
                    Self::lemma_wf_same(*old(self), *self);
                }
                return Err(e);
            },
        }
        proof {
            lemma_page_count(self.dev_size as int, self.ps());
        }
        bitmap::bit_set(&mut self.present, p, false);
        let ghost mid = *self;
        proof {
            assert forall|i: int| 0 <= i < self.dev_size && bitmap::bit(self.present@, i / self.ps())
                && !bitmap::bit(self.dirty@, i / self.ps()) implies #[trigger] self.data.bytes()[i]
                == self.inner.bytes()[i] by {
                old(self).lemma_page_bytes(p as int, i);
                assert(bitmap::bit(old(self).present@, i / self.ps()));
                assert(old(self).data.bytes()[i] == old(self).inner.bytes()[i]);
            }
            assert forall|q: int|
                0 <= q < page_count(self.dev_size as int, self.ps()) && #[trigger] bitmap::bit(self.dirty@, q)
                implies bitmap::bit(self.present@, q) by {
                assert(bitmap::bit(old(self).present@, q));
            }
            self.lemma_recorded_apart(*old(self), p);
            assert forall|q: u64| self.budget is Some && #[trigger] self.lru.stamps().contains_key(q)
                implies q < self.num_pages && self.here(q as int) by {
                assert(old(self).lru.stamps().contains_key(q));
                assert(old(self).here(q as int));
            }
            assert forall|q: u64| self.budget is Some && #[trigger] self.lru.clean().contains(q)
                implies q < self.num_pages && self.here(q as int) && !self.changed(q as int) by {
                assert(old(self).lru.clean().contains(q));
                assert(old(self).here(q as int));
                self.lru.lemma_clean_is_tracked(q);
            }
            assert forall|i: int| 0 <= i < self.dev_size implies #[trigger] self.byte_at(i) == old(
                self,
            ).byte_at(i) by {
                old(self).lemma_page_bytes(p as int, i);
                if i / self.ps() == p {
                    assert(bitmap::bit(old(self).present@, i / self.ps()));
                    assert(!bitmap::bit(old(self).dirty@, i / self.ps()));
                    assert(old(self).data.bytes()[i] == old(self).inner.bytes()[i]);
                } else {
                    assert(self.here(i / self.ps()) == old(self).here(i / self.ps()));
                }
            }
            assert(self.bytes() =~= old(self).bytes());
        }
        self.save_present(p);
        proof {
            if old(self).filed() && self.meta.faults() == mid.meta.faults() {
                old(self).lemma_filed_byte(p as int / 8);
                assert(self.img()[64 + self.bm() + p as int / 8] == self.dirty@[p as int / 8]);
                assert(old(self).meta.bytes()[64 + self.bm() + p as int / 8] == mid.img()[64 + self.bm()
                    + p as int / 8]);
                self.lemma_filed(*old(self), p as int);
            }
            reveal(books_match);
        }
        assert(mid.here(p as int) == self.here(p as int));
        Ok(())
    }

    /// The pages on account, while a budget is active.
    pub closed spec fn accounted(&self) -> Set<u64> {
        self.lru.stamps().dom()
    }

    /// When page `p` was last used: a page with a smaller number was used earlier.
    pub closed spec fn recency(&self, p: u64) -> u64 {
        self.lru.stamps()[p]
    }

    /// Page `p` is on account and may be dropped.
    pub closed spec fn evictable(&self, p: u64) -> bool {
        self.lru.clean().contains(p)
    }

    /// Bytes of the pages on account.
    pub closed spec fn resident_total(&self) -> u64 {
        self.resident
    }

    /// A budget is active.
    pub open spec fn budgeted(&self) -> bool {
        self.allowance() is Some
    }

    /// The owner's balance covers the pages on account, and what the registry has on
    /// record for all owners could still grow by the device without reaching the
    /// largest number.
    pub open spec fn in_order(&self) -> bool {
        self.allowance() matches Some(b) && self.resident_total() <= b.mine() && cache_budget::sum(
            b.records(),
        ) - self.resident_total() + self.bytes().len() <= u64::MAX
    }

    /// Eviction works, and the balances are in order.
    pub open spec fn bounded(&self) -> bool {
        self.evicts() && self.in_order() && self.bytes().len() % 512 == 0
    }

    /// Eviction can keep the shared limit: every clean page may be dropped.
    pub open spec fn limits(&self) -> bool {
        self.bounded() && self.tidy()
    }

    /// How far the shared total is over its limit.
    pub open spec fn excess(&self) -> int {
        match self.allowance() {
            Some(b) => b.over(),
            None => 0,
        }
    }

    /// The shared limit is kept since `o`: nothing is over it, or nothing is left to
    /// drop but one page, the one that was just loaded; or no page was taken on
    /// account, or the data file failed to give space back, or the clock ran out.
    pub open spec fn relieved(&self, o: Self) -> bool {
        ||| self.excess() == 0
        ||| forall|p: u64, q: u64| #[trigger]
            self.evictable(p) && #[trigger] self.evictable(q) ==> p == q
        ||| self.unadmitted(o)
        ||| self.data_file().faults() > o.data_file().faults()
        ||| self.spent()
    }

    /// No page was taken on account since `o`.
    pub open spec fn unadmitted(&self, o: Self) -> bool {
        &&& self.accounted().subset_of(o.accounted())
        &&& self.excess() <= o.excess()
        &&& forall|p: u64| #[trigger] self.evictable(p) ==> o.evictable(p)
        &&& o.spent() ==> self.spent()
    }

    /// The limit is kept over two steps if it is over each.
    proof fn lemma_relieved(&self, mid: Self, o: Self)
        requires
            self.relieved(mid),
            mid.relieved(o),
            self.data.faults() >= mid.data.faults() >= o.data.faults(),
        ensures
            self.relieved(o),
    {
        if self.unadmitted(mid) && !mid.unadmitted(o) {
            if forall|p: u64, q: u64| #[trigger]
                mid.evictable(p) && #[trigger] mid.evictable(q) ==> p == q {
                assert forall|p: u64, q: u64| #[trigger]
                    self.evictable(p) && #[trigger] self.evictable(q) implies p == q by {
                    assert(mid.evictable(p) && mid.evictable(q));
                }
            }
        }
    }

    /// The same books are in the same order.
    proof fn lemma_same_books(&self, o: Self)
        requires
            self.budget == o.budget,
            self.lru == o.lru,
            self.resident == o.resident,
            self.dev_size == o.dev_size,
            self.eviction_supported == o.eviction_supported,
        ensures
            self.unadmitted(o),
            self.bounded() == o.bounded(),
            self.in_order() == o.in_order(),
    {
    }

    /// The lengths of `gone`, together.
    pub open spec fn freed(&self, gone: Seq<u64>) -> int
        decreases gone.len(),
    {
        if gone.len() == 0 {
            0
        } else {
            self.freed(gone.drop_last()) + self.len_of(gone.last() as int)
        }
    }

    /// `gone` are pages that may be dropped, oldest first: none of them is
    /// `protect`, and every page that was left alone was used later.
    pub open spec fn oldest_first(&self, gone: Seq<u64>, protect: Option<u64>) -> bool {
        &&& gone.no_duplicates()
        &&& forall|i: int|
            0 <= i < gone.len() ==> self.evictable(#[trigger] gone[i]) && protect != Some(gone[i])
        &&& forall|i: int, j: int|
            0 <= i < j < gone.len() ==> self.recency(#[trigger] gone[i]) <= self.recency(
                #[trigger] gone[j],
            )
        &&& forall|i: int, q: u64|
            0 <= i < gone.len() && #[trigger] self.evictable(q) && !gone.contains(q) && protect != Some(
                q,
            ) ==> self.recency(#[trigger] gone[i]) <= self.recency(q)
    }

    /// Drop the least recently used clean pages until `over` bytes are free, never
    /// the page `protect` and never a dirty one. The pass ends early where no such
    /// page is left, or where a page's space cannot be given back.
    #[verifier::rlimit(40)]
    pub fn evict_clean(&mut self, over: u64, protect: Option<u64>) -> (r: Eviction)
        requires
            old(self).valid(),
        ensures
            final(self).ticks() <= old(self).ticks() + 1,
            final(self).undisturbed(*old(self)),
            final(self).orderly(*old(self)),
            final(self).valid(),
            final(self).bytes() == old(self).bytes(),
            final(self).durable() == old(self).durable(),
            old(self).faithful() ==> final(self).faithful(),
            final(self).same_but_evicted(*old(self)),
            !old(self).evicts() ==> r.pages@.len() == 0 && r.refused is None && *final(self) == *old(
                self,
            ),
            old(self).oldest_first(r.pages@, protect),
            r.pages@.len() > 0 ==> old(self).freed(r.pages@.drop_last()) < over,
            old(self).evicts() ==> old(self).freed(r.pages@) >= over || r.refused is Some || forall|
                q: u64,
            | #[trigger]
                old(self).evictable(q) ==> r.pages@.contains(q) || protect == Some(q),
            r.refused is Some ==> old(self).freed(r.pages@) < over,
            r.refused is None ==> final(self).data_file().requests() == old(
                self,
            ).data_file().requests() + old(self).discards(r.pages@),
            r.refused is Some && old(self).bytes().len() % 512 == 0 ==> final(self).spent()
                || final(self).data_file().faults() > old(self).data_file().faults(),
            0 <= old(self).freed(r.pages@),
            forall|q: u64| #[trigger]
                final(self).evictable(q) ==> old(self).evictable(q) && !r.pages@.contains(q),
            forall|q: int|
                0 <= q ==> #[trigger] final(self).here(q) == (old(self).here(q) && !(q <= u64::MAX
                    && r.pages@.contains(q as u64))),
            forall|q: int| 0 <= q && #[trigger] old(self).changed(q) && old(self).here(q) ==> final(self).here(q),
            forall|q: u64| #[trigger]
                final(self).accounted().contains(q) == (old(self).accounted().contains(q)
                    && !r.pages@.contains(q)),
            final(self).resident_total() == old(self).resident_total() - old(self).freed(r.pages@),
            old(self).allowance() matches Some(b) ==> (final(self).allowance() matches Some(c)
                && c.refunded(*b, old(self).freed(r.pages@))),
    {
        let mut pages: Vec<u64> = Vec::new();
        assert(self.data.requests() + self.discards(pages@) =~= self.data.requests());
        if self.budget.is_none() {
            return Eviction { pages, refused: None };
        }
        if !self.eviction_supported {
            proof {
                self.budget->0.lemma_refund_none();
            }
            return Eviction { pages, refused: None };
        }
        proof {
            self.budget->0.lemma_refund_none();
        }
        if over == 0 {
            return Eviction { pages, refused: None };
        }
        if self.lru.ticks() == u64::MAX {
            return Eviction { pages, refused: Some(BackendError::ClockExhausted) };
        }
        let mut left: u64 = over;
        while left > 0
            invariant
                old(self).wf(),
                self.wf(),
                self.budget is Some,
                self.bytes() == old(self).bytes(),
                self.durable() == old(self).durable(),
                old(self).faithful() ==> self.faithful(),
                self.same_but_evicted(*old(self)),
                self.data.requests() == old(self).data.requests() + old(self).discards(pages@),
                old(self).evicts(),
                over > 0 ==> self.lru.clock() < u64::MAX,
                self.lru.clock() == old(self).lru.clock(),
                old(self).lru.clock() < u64::MAX,
                old(self).oldest_first(pages@, protect),
                pages@.len() > 0 ==> old(self).freed(pages@.drop_last()) < over,
                0 <= old(self).freed(pages@),
                left == (if old(self).freed(pages@) < over {
                    over - old(self).freed(pages@)
                } else {
                    0
                }),
                forall|q: int|
                    0 <= q ==> #[trigger] self.here(q) == (old(self).here(q) && !(q <= u64::MAX
                        && pages@.contains(q as u64))),
                forall|q: int|
                    0 <= q && #[trigger] old(self).changed(q) && old(self).here(q) ==> self.here(q),
                forall|q: u64|
                    #![trigger self.lru.stamps().contains_key(q)]
                    self.lru.stamps().contains_key(q) == (old(self).lru.stamps().contains_key(q)
                        && !pages@.contains(q)),
                forall|q: u64| #[trigger]
                    self.lru.stamps().contains_key(q) ==> self.lru.stamps()[q] == old(
                        self,
                    ).lru.stamps()[q],
                forall|q: u64| #[trigger]
                    self.lru.clean().contains(q) == (old(self).lru.clean().contains(q)
                        && !pages@.contains(q)),
                self.resident == old(self).resident - old(self).freed(pages@),
                old(self).budget is Some,
                self.budget->0.refunded(old(self).budget->0, old(self).freed(pages@)),
            decreases left,
        {
            let ghost start = *self;
            let p = match self.lru.pop_lru(protect) {
                Some(p) => p,
                None => {
                    proof {
                        assert(self.lru.stamps().dom() =~= start.lru.stamps().dom());
                        assert(self.booked());
                        Self::lemma_wf_same(start, *self);
                        assert forall|q: u64| #[trigger] old(self).evictable(q) implies pages@.contains(
                            q,
                        ) || protect == Some(q) by {
                            if !pages@.contains(q) {
                                assert(start.lru.clean().contains(q));
                            }
                        }
                        assert forall|q: int| 0 <= q implies #[trigger] self.here(q) == start.here(q) by {}
                        self.lemma_tidy_evicted(*old(self), pages@);
                        assert forall|q: u64| #[trigger] self.accounted().contains(q) == (old(
                            self,
                        ).accounted().contains(q) && !pages@.contains(q)) by {
                            assert(start.lru.stamps().contains_key(q) == self.lru.stamps().contains_key(q));
                        }
                    }
                    return Eviction { pages, refused: None };
                },
            };
            assert(start.lru.clean().contains(p));
            let len = self.page_len(p);
            proof {
                start.lru.lemma_clean_is_tracked(p);
                assert(start.lru.stamps().contains_key(p));
                let held = self.lru.stamps().dom();
                assert(held.insert(p) =~= start.lru.stamps().dom());
                lemma_booked_page(held, p, self.dev_size as int, self.ps(), self.num_pages as int);
                lemma_booked_bound(held, self.dev_size as int, self.ps(), self.num_pages as int);
            }
            self.resident = self.resident - len;
            proof {
                assert forall|q: u64| #[trigger] self.lru.clean().contains(q) implies q
                    < self.num_pages && self.here(q as int) && !self.changed(q as int) by {
                    assert(start.lru.clean().contains(q));
                }
                assert forall|q: u64| #[trigger] self.lru.stamps().contains_key(q) implies q
                    < self.num_pages && self.here(q as int) by {
                    assert(start.lru.stamps().contains_key(q));
                }
                Self::lemma_wf_same(start, *self);
            }
            self.withdraw(p);
            let ghost popped = *self;
            match self.drop_page(p) {
                Ok(()) => {},
                Err(e) => {
                    let ghost failed = *self;
                    self.lru.touch(p, true);
                    self.resident = self.resident + len;
                    proof {
                        assert(self.lru.stamps().dom() =~= start.lru.stamps().dom());
                        assert forall|q: u64| #[trigger] self.lru.clean().contains(q) implies q
                            < self.num_pages && self.here(q as int) && !self.changed(q as int) by {
                            if q != p {
                                assert(failed.lru.clean().contains(q));
                                assert(failed.here(q as int));
                            } else {
                                assert(start.here(p as int) && !start.changed(p as int));
                                assert(popped.here(p as int));
                                assert(failed.here(p as int));
                            }
                        }
                        assert forall|q: u64| #[trigger] self.lru.stamps().contains_key(q) implies q
                            < self.num_pages && self.here(q as int) by {
                            assert(start.lru.stamps().contains_key(q));
                            assert(start.here(q as int));
                            assert(popped.here(q as int));
                            assert(failed.here(q as int));
                        }
                        Self::lemma_wf_same(failed, *self);
                        assert forall|q: int| 0 <= q implies #[trigger] self.here(q) == start.here(q) by {
                            assert(failed.here(q) == popped.here(q));
                        }
                    }
                    let ghost touched = *self;
                    self.announce(p, len);
                    proof {
                        assert forall|q: int| 0 <= q implies #[trigger] self.here(q) == start.here(q) by {
                            assert(touched.here(q) == start.here(q));
                        }
                        assert forall|q: u64| #[trigger] self.accounted().contains(q) == (old(
                            self,
                        ).accounted().contains(q) && !pages@.contains(q)) by {
                            assert(start.lru.stamps().contains_key(q) == self.lru.stamps().contains_key(q));
                        }
                    }
                    return Eviction { pages, refused: Some(e) };
                },
            }
            let ghost dropped = *self;
            match &mut self.budget {
                Some(b) => {
                    b.release(len);
                },
                None => {},
            }
            let ghost gone = pages@;
            pages.push(p);
            proof {
                old(self).budget->0.lemma_refund_more(
                    start.budget->0,
                    self.budget->0,
                    old(self).freed(gone),
                    len,
                );
                assert(pages@.drop_last() =~= gone);
                assert(pages@.last() == p);
                assert(old(self).freed(pages@) == old(self).freed(gone) + len);
                assert forall|q: u64| #[trigger] self.lru.clean().contains(q) implies q
                    < self.num_pages && self.here(q as int) && !self.changed(q as int) by {
                    assert(dropped.lru.clean().contains(q));
                    assert(dropped.here(q as int) && !dropped.changed(q as int));
                }
                Self::lemma_wf_same(dropped, *self);
                assert forall|q: u64| pages@.contains(q) == (gone.contains(q) || q == p) by {
                    if gone.contains(q) {
                        let k = choose|k: int| 0 <= k < gone.len() && gone[k] == q;
                        assert(pages@[k] == q);
                    }
                    if q == p {
                        assert(pages@[gone.len() as int] == q);
                    }
                }
                assert(!gone.contains(p));
                assert forall|q: int| 0 <= q implies #[trigger] self.here(q) == (old(self).here(q) && !(q
                    <= u64::MAX && pages@.contains(q as u64))) by {
                    assert(dropped.here(q) == (popped.here(q) && q != p));
                    assert(popped.here(q) == start.here(q));
                }
                assert forall|q: int|
                    0 <= q && #[trigger] old(self).changed(q) && old(self).here(q) implies self.here(q) by {
                    assert(start.here(q) && start.changed(q));
                    assert(dropped.here(q) == (popped.here(q) && q != p));
                    assert(popped.here(q) == start.here(q));
                }
                assert forall|q: u64| #[trigger] self.lru.clean().contains(q) == (old(
                    self,
                ).lru.clean().contains(q) && !pages@.contains(q)) by {
                    assert(start.lru.clean().contains(q) == (old(self).lru.clean().contains(q)
                        && !gone.contains(q)));
                }
                assert forall|q: u64|
                    #![trigger self.lru.stamps().contains_key(q)]
                    self.lru.stamps().contains_key(q) == (old(self).lru.stamps().contains_key(q)
                        && !pages@.contains(q)) by {
                    assert(start.lru.stamps().contains_key(q) == (old(self).lru.stamps().contains_key(q)
                        && !gone.contains(q)));
                }
                assert forall|q: u64| #[trigger] self.lru.stamps().contains_key(q) implies self.lru.stamps()[q]
                    == old(self).lru.stamps()[q] by {
                    assert(start.lru.stamps().contains_key(q));
                }
                old(self).lemma_one_older(start, gone, p, protect);
                assert(self.data.requests() =~= old(self).data.requests() + old(self).discards(pages@));
                self.lemma_tidy_evicted(*old(self), pages@);
            }
            left = left.saturating_sub(len);
        }
        proof {
            assert forall|q: u64| #[trigger] self.accounted().contains(q) == (old(
                self,
            ).accounted().contains(q) && !pages@.contains(q)) by {
                assert(self.lru.stamps().contains_key(q) == (old(self).lru.stamps().contains_key(q)
                    && !pages@.contains(q)));
            }
        }
        Eviction { pages, refused: None }
    }

    /// The books match after the pages `gone` have been dropped, if they did before.
    proof fn lemma_tidy_evicted(&self, o: Self, gone: Seq<u64>)
        requires
            self.budget is Some == o.budget is Some,
            o.lru.clock() < u64::MAX,
            self.num_pages == o.num_pages,
            self.dirty == o.dirty,
            forall|q: u64|
                #![trigger self.lru.stamps().contains_key(q)]
                self.lru.stamps().contains_key(q) == (o.lru.stamps().contains_key(q)
                    && !gone.contains(q)),
            forall|q: u64| #[trigger]
                self.lru.clean().contains(q) == (o.lru.clean().contains(q) && !gone.contains(q)),
            forall|q: int|
                0 <= q ==> #[trigger] self.here(q) == (o.here(q) && !(q <= u64::MAX && gone.contains(
                    q as u64,
                ))),
        ensures
            o.tidy() ==> self.tidy(),
    {
        reveal(books_match);
        if o.tidy() && self.budget is Some {
            assert forall|p: u64| #[trigger] self.lru.stamps().contains_key(p) == (p < self.num_pages
                && bitmap::bit(self.present@, p as int)) by {
                assert(self.here(p as int) == (o.here(p as int) && !gone.contains(p)));
            }
            assert forall|p: u64| #[trigger] self.lru.clean().contains(p) == (p < self.num_pages
                && bitmap::bit(self.present@, p as int) && !bitmap::bit(self.dirty@, p as int)) by {
                assert(self.here(p as int) == (o.here(p as int) && !gone.contains(p)));
            }
        }
    }

    /// The oldest page that is left follows the pages that went before it.
    proof fn lemma_one_older(&self, now: Self, gone: Seq<u64>, p: u64, protect: Option<u64>)
        requires
            self.oldest_first(gone, protect),
            now.lru.clean().contains(p),
            protect != Some(p),
            forall|q: u64| #[trigger]
                now.lru.clean().contains(q) == (self.lru.clean().contains(q) && !gone.contains(q)),
            forall|q: u64| #[trigger]
                now.lru.stamps().contains_key(q) ==> now.lru.stamps()[q] == self.lru.stamps()[q],
            forall|q: u64| #[trigger]
                now.lru.clean().contains(q) && protect != Some(q) ==> now.lru.stamps()[p]
                    <= now.lru.stamps()[q],
        ensures
            self.oldest_first(gone.push(p), protect),
    {
        let all = gone.push(p);
        now.lru.lemma_clean_is_tracked(p);
        assert(now.lru.stamps().contains_key(p));
        assert(self.evictable(p) && !gone.contains(p));
        assert forall|i: int, j: int| 0 <= i < j < all.len() implies self.recency(#[trigger] all[i])
            <= self.recency(#[trigger] all[j]) by {
            assert(all[i] == gone[i]);
            if j < gone.len() {
                assert(all[j] == gone[j]);
            } else {
                assert(self.evictable(p));
                assert(self.recency(gone[i]) <= self.recency(p));
            }
        }
        assert forall|i: int, q: u64|
            0 <= i < all.len() && #[trigger] self.evictable(q) && !all.contains(q) && protect != Some(q)
            implies self.recency(#[trigger] all[i]) <= self.recency(q) by {
            assert(!gone.contains(q)) by {
                if gone.contains(q) {
                    let k = choose|k: int| 0 <= k < gone.len() && gone[k] == q;
                    assert(all[k] == q);
                }
            }
            if i < gone.len() {
                assert(all[i] == gone[i]);
            } else {
                assert(now.lru.clean().contains(q));
                now.lru.lemma_clean_is_tracked(q);
                assert(now.lru.stamps().contains_key(q));
            }
        }
        assert forall|i: int| 0 <= i < all.len() implies self.evictable(#[trigger] all[i]) && protect
            != Some(all[i]) by {
            if i < gone.len() {
                assert(all[i] == gone[i]);
            }
        }
        assert(all.no_duplicates()) by {
            assert forall|i: int, j: int| 0 <= i < all.len() && 0 <= j < all.len() && i != j implies all[i]
                != all[j] by {
                if i < gone.len() {
                    assert(all[i] == gone[i]);
                    assert(gone.contains(gone[i]));
                }
                if j < gone.len() {
                    assert(all[j] == gone[j]);
                    assert(gone.contains(gone[j]));
                }
            }
        }
    }

    /// Eviction can happen at all: there is a budget, and space can be given back.
    pub closed spec fn evicts(&self) -> bool {
        self.budget is Some && self.eviction_supported
    }

    /// The same cache, perhaps with fewer clean pages.
    pub closed spec fn same_but_evicted(&self, o: Self) -> bool {
        &&& self.inner == o.inner
        &&& self.page_size == o.page_size
        &&& self.dev_size == o.dev_size
        &&& self.num_pages == o.num_pages
        &&& self.dirty == o.dirty
        &&& self.unsaved == o.unsaved
        &&& self.faithful == o.faithful
        &&& self.grows(o)
        &&& self.eviction_supported == o.eviction_supported
        &&& self.budget is Some == o.budget is Some
        &&& self.index is Some == o.index is Some
        &&& forall|q: int| 0 <= q && #[trigger] self.here(q) ==> o.here(q)
        &&& !o.evicts() ==> self.index == o.index
        &&& !o.evicts() ==> forall|q: int| 0 <= q && #[trigger] o.here(q) ==> self.here(q)
    }

    /// What well-formedness reads, apart from the recency order, is the same.
    spec fn wf_kept(&self, o: Self) -> bool {
        &&& self.inner == o.inner
        &&& self.data == o.data
        &&& self.meta == o.meta
        &&& self.page_size == o.page_size
        &&& self.dev_size == o.dev_size
        &&& self.num_pages == o.num_pages
        &&& self.head == o.head
        &&& self.present == o.present
        &&& self.dirty == o.dirty
        &&& self.unsaved == o.unsaved
        &&& self.faithful == o.faithful
        &&& self.grows(o)
        &&& o.wf() ==> self.recorded()
    }

    /// Withdraw page `p` from the shared index.
    fn withdraw(&mut self, p: u64)
        requires
            old(self).wf(),
        ensures
            final(self).wf(),
            final(self).bytes() == old(self).bytes(),
            final(self).wf_kept(*old(self)),
            final(self).lru == old(self).lru,
            final(self).budget == old(self).budget,
            final(self).resident == old(self).resident,
            final(self).eviction_supported == old(self).eviction_supported,
            final(self).index is Some == old(self).index is Some,
            forall|q: u64| #[trigger] final(self).shown(q) == (q != p && old(self).shown(q)),
    {
        match &mut self.index {
            Some(x) => {
                x.unpublish(p);
            },
            None => {},
        }
        proof {
            if self.index is Some {
                self.index->0.lemma_withdrawn(old(self).index->0, Some(p));
            }
            assert forall|q: u64| #[trigger] shown_in(self.index, q) implies shown_in(
                old(self).index,
                q,
            ) by {}
            assert(self.bytes() =~= old(self).bytes());
            assert forall|q: int|
                0 <= q < self.num_pages && #[trigger] self.changed(q) && !self.unsaved@.contains(q as u64)
                implies self.saved(q) by {
                assert(old(self).changed(q));
                assert(old(self).saved(q));
            }
        }
    }

    /// Publish the clean page `p` in the shared index.
    fn announce(&mut self, p: u64, len: u64)
        requires
            old(self).wf(),
            p < old(self).num_pages,
            old(self).here(p as int),
            !old(self).changed(p as int),
        ensures
            final(self).wf(),
            final(self).bytes() == old(self).bytes(),
            final(self).wf_kept(*old(self)),
            final(self).lru == old(self).lru,
            final(self).budget == old(self).budget,
            final(self).resident == old(self).resident,
            final(self).eviction_supported == old(self).eviction_supported,
            final(self).index is Some == old(self).index is Some,
            forall|q: u64| #[trigger]
                final(self).shown(q) == (q == p && old(self).index is Some || old(self).shown(q)),
    {
        match &mut self.index {
            Some(x) => {
                x.publish(p, len);
            },
            None => {},
        }
        proof {
            if self.index is Some {
                self.index->0.lemma_published(old(self).index->0, p, len);
            }
            assert forall|q: u64| #[trigger] shown_in(self.index, q) implies q == p || shown_in(
                old(self).index,
                q,
            ) by {}
            assert(self.bytes() =~= old(self).bytes());
            assert forall|q: int|
                0 <= q < self.num_pages && #[trigger] self.changed(q) && !self.unsaved@.contains(q as u64)
                implies self.saved(q) by {
                assert(old(self).changed(q));
                assert(old(self).saved(q));
            }
        }
    }

    /// Note the use of the resident page `p`, which is clean exactly when `clean`,
    /// and charge a page that was not on account yet. Returns how far that took the
    /// shared total over its limit.
    fn book(&mut self, p: u64, clean: bool) -> (over: u64)
        requires
            old(self).wf(),
            old(self).budget is Some,
            old(self).lru.clock() < u64::MAX,
            p < old(self).num_pages,
            old(self).here(p as int),
            clean == !old(self).changed(p as int),
        ensures
            final(self).wf(),
            final(self).bytes() == old(self).bytes(),
            final(self).durable() == old(self).durable(),
            old(self).faithful() ==> final(self).faithful(),
            final(self).wf_kept(*old(self)),
            final(self).eviction_supported == old(self).eviction_supported,
            final(self).index == old(self).index,
            final(self).budget is Some,
            final(self).lru.stamps().dom() == old(self).lru.stamps().dom().insert(p),
            final(self).lru.clock() == old(self).lru.clock() + 1,
            final(self).lru.stamps() == old(self).lru.stamps().insert(p, final(self).lru.clock()),
            final(self).lru.clean() == (if clean {
                old(self).lru.clean().insert(p)
            } else {
                old(self).lru.clean().remove(p)
            }),
            final(self).resident == old(self).resident + (if old(self).lru.stamps().contains_key(p) {
                0
            } else {
                old(self).len_of(p as int)
            }),
            old(self).in_order() ==> final(self).in_order(),
            old(self).tidy_but(Some(p)) ==> final(self).tidy(),
            old(self).lru.stamps().contains_key(p) ==> over == 0 && final(self).budget == old(
                self,
            ).budget,
            !old(self).lru.stamps().contains_key(p) ==> over == final(self).budget->0.over()
                && final(self).budget->0.charged(old(self).budget->0, old(self).len_of(p as int)),
    {
        let already = self.lru.contains(p);
        self.lru.touch(p, clean);
        let mut over: u64 = 0;
        let ghost held = old(self).lru.stamps().dom();
        if !already {
            let len = self.page_len(p);
            proof {
                lemma_booked_page(held, p, self.dev_size as int, self.ps(), self.num_pages as int);
                lemma_booked_bound(
                    held.insert(p),
                    self.dev_size as int,
                    self.ps(),
                    self.num_pages as int,
                );
            }
            self.resident = self.resident + len;
            match &mut self.budget {
                Some(b) => {
                    over = b.charge(len);
                },
                None => {},
            }
        }
        proof {
            assert(self.lru.stamps().dom() =~= held.insert(p));
            if already {
                assert(held.insert(p) =~= held);
            }
            assert forall|q: u64| #[trigger] self.lru.clean().contains(q) implies q < self.num_pages
                && self.here(q as int) && !self.changed(q as int) by {
                if q != p {
                    assert(old(self).lru.clean().contains(q));
                    assert(old(self).here(q as int) && !old(self).changed(q as int));
                }
            }
            assert forall|q: u64| #[trigger] self.lru.stamps().contains_key(q) implies q
                < self.num_pages && self.here(q as int) by {
                if q != p {
                    assert(old(self).lru.stamps().contains_key(q));
                    assert(old(self).here(q as int));
                }
            }
            Self::lemma_wf_same(*old(self), *self);
            reveal(books_match);
            if old(self).in_order() && !already {
                let (a, b) = (old(self).budget->0, self.budget->0);
                lemma_booked_bound(
                    held.insert(p),
                    self.dev_size as int,
                    self.ps(),
                    self.num_pages as int,
                );
                let now = if a.mine() + old(self).len_of(p as int) > u64::MAX {
                    u64::MAX
                } else {
                    (a.mine() + old(self).len_of(p as int)) as u64
                };
                cache_budget::a_balance_moves_the_total(a, b, now);
            }
        }
        over
    }

    /// After a use of `[offset, offset + len)`: the pages of the range that are in the
    /// data file are on account and were used later than every page outside the range,
    /// one after the other; the other pages are as they were.
    pub open spec fn used(&self, o: Self, offset: int, len: int) -> bool {
        &&& forall|p: u64|
            pages::covers(o.page_bytes() as int, offset, len, p as int) && o.here(p as int)
                ==> #[trigger] self.accounted().contains(p)
        &&& forall|p: u64, q: u64|
            pages::covers(o.page_bytes() as int, offset, len, p as int) && o.here(p as int)
                && self.accounted().contains(q) && (q < p || !pages::covers(
                o.page_bytes() as int,
                offset,
                len,
                q as int,
            )) ==> #[trigger] self.recency(q) < #[trigger] self.recency(p)
        &&& forall|q: u64|
            !pages::covers(o.page_bytes() as int, offset, len, q as int)
                ==> #[trigger] self.accounted().contains(q) == o.accounted().contains(q)
        &&& forall|q: u64|
            !pages::covers(o.page_bytes() as int, offset, len, q as int) && o.accounted().contains(q)
                ==> #[trigger] self.recency(q) == o.recency(q)
    }

    /// One page more of a range has been used.
    proof fn lemma_used(&self, o: Self, start: Self, offset: int, pos: int, chunk: int)
        requires
            o.page_size > 0,
            0 <= offset,
            0 <= pos,
            0 < chunk,
            pos == 0 || (offset + pos) % o.ps() == 0,
            (offset + pos) % o.ps() + chunk <= o.ps(),
            (offset + pos) / o.ps() <= u64::MAX,
            start.used(o, offset, pos),
            start.lru.wf(),
            start.booked(),
            start.present == o.present,
            start.here((offset + pos) / o.ps()) ==> self.lru.clock() == start.lru.clock() + 1
                && self.lru.stamps() == start.lru.stamps().insert(
                ((offset + pos) / o.ps()) as u64,
                self.lru.clock(),
            ),
            !start.here((offset + pos) / o.ps()) ==> self.lru.stamps() == start.lru.stamps(),
        ensures
            self.used(o, offset, pos + chunk),
    {
        let ps = o.ps();
        let at = ((offset + pos) / ps) as u64;
        pages::lemma_next_page(ps, offset, pos, chunk);
        pages::lemma_split(ps, offset + pos);
        assert forall|q: u64| #[trigger] start.accounted().contains(q) implies start.recency(q)
            <= start.lru.clock() by {
            start.lru.lemma_stamp_bound(q);
        }
        assert forall|p: u64| pages::covers(ps, offset, pos, p as int) implies p < at by {
            pages::lemma_last_before(ps, offset, pos);
        }
        assert forall|p: u64|
            pages::covers(ps, offset, pos + chunk, p as int) && o.here(p as int) implies #[trigger] self.accounted().contains(
            p,
        ) by {
            if p != at {
                assert(pages::covers(ps, offset, pos, p as int));
                assert(start.accounted().contains(p));
            }
        }
        assert forall|p: u64, q: u64|
            pages::covers(ps, offset, pos + chunk, p as int) && o.here(p as int)
                && self.accounted().contains(q) && (q < p || !pages::covers(
                ps,
                offset,
                pos + chunk,
                q as int,
            )) implies #[trigger] self.recency(q) < #[trigger] self.recency(p) by {
            if p == at {
                assert(start.accounted().contains(q));
            } else {
                assert(pages::covers(ps, offset, pos, p as int));
                assert(q != at);
                assert(start.accounted().contains(q));
                assert(start.recency(q) < start.recency(p));
            }
        }
        assert forall|q: u64| !pages::covers(ps, offset, pos + chunk, q as int) implies #[trigger] self.accounted().contains(
            q,
        ) == o.accounted().contains(q) by {
            assert(start.accounted().contains(q) == o.accounted().contains(q));
        }
        assert forall|q: u64|
            !pages::covers(ps, offset, pos + chunk, q as int) && o.accounted().contains(q)
            implies #[trigger] self.recency(q) == o.recency(q) by {
            assert(start.recency(q) == o.recency(q));
        }
    }

    /// Read `chunk` bytes of page `p` at `at`, out of the data file if the page is
    /// there, which counts as a use of it.
    #[verifier::rlimit(40)]
    fn read_piece(&mut self, p: u64, at: u64, chunk: u64) -> (r: Result<Vec<u8>, BackendError>)
        requires
            old(self).wf(),
            p < old(self).num_pages,
            p == at as int / old(self).ps(),
            chunk > 0,
            at + chunk <= old(self).dev_size,
            at as int % old(self).ps() + chunk <= old(self).ps(),
        ensures
            final(self).ticks() <= old(self).ticks() + 1,
            final(self).wf(),
            final(self).bytes() == old(self).bytes(),
            final(self).durable() == old(self).durable(),
            final(self).faithful == old(self).faithful,
            final(self).grows(*old(self)),
            final(self).present == old(self).present,
            final(self).dirty == old(self).dirty,
            final(self).unsaved == old(self).unsaved,
            final(self).dev_size == old(self).dev_size,
            final(self).num_pages == old(self).num_pages,
            final(self).page_size == old(self).page_size,
            final(self).budget is Some == old(self).budget is Some,
            r matches Ok(d) ==> d@ == old(self).bytes().subrange(at as int, at + chunk),
            r is Err && old(self).even() && at % 512 == 0 && chunk % 512 == 0
                ==> final(self).store_faults() > old(self).store_faults() || final(self).spent(),
            r is Ok && old(self).budget is Some && old(self).here(p as int)
                ==> final(self).lru.clock() == old(self).lru.clock() + 1 && final(self).lru.stamps()
                == old(self).lru.stamps().insert(p, final(self).lru.clock()),
            !old(self).here(p as int) ==> final(self).lru == old(self).lru,
            old(self).here(p as int) ==> final(self).inner == old(self).inner,
            !old(self).here(p as int) ==> final(self).inner.requests()
                == old(self).inner.requests().push((Request::Read { offset: at, len: chunk })),
    {
        let hit = bitmap::bit_get(&self.present, p);
        let rd = if hit {
            self.data.read(at, chunk)
        } else {
            self.inner.read(at, chunk)
        };
        proof {
            assert(self.lru_ok()) by {
                assert forall|q: u64| self.budget is Some && #[trigger] self.lru.clean().contains(q)
                    implies q < self.num_pages && self.here(q as int) && !self.changed(q as int) by {
                    assert(old(self).lru.clean().contains(q));
                    assert(old(self).here(q as int) && !old(self).changed(q as int));
                }
            }
            Self::lemma_wf_same(*old(self), *self);
        }
        let data = match rd {
            Ok(data) => data,
            Err(e) => {
                return Err(e);
            },
        };
        if data.len() as u64 != chunk {
            return Err(
                BackendError::ShortRead { offset: at, expected: chunk, got: data.len() as u64 },
            );
        }
        proof {
            assert forall|k: int| 0 <= k < chunk implies #[trigger] data@[k] == old(self).bytes()[at + k] by {
                pages::lemma_same_page(self.ps(), at as int, k);
                assert(old(self).bytes()[at + k] == old(self).byte_at(at + k));
            }
            assert(data@ =~= old(self).bytes().subrange(at as int, at + chunk));
        }
        if hit && self.budget.is_some() {
            if self.lru.ticks() == u64::MAX {
                return Err(BackendError::ClockExhausted);
            }
            let clean = !bitmap::bit_get(&self.dirty, p);
            let _over: u64 = self.book(p, clean);
        }
        Ok(data)
    }

    /// Append the next piece of a read of `[offset, offset + len)`, of which `pos`
    /// bytes are in `out`, up to the end of its page, and return the piece's length.
    #[verifier::rlimit(40)]
    fn read_next(
        &mut self,
        offset: u64,
        len: u64,
        pos: u64,
        out: &mut Vec<u8>,
        Ghost(o): Ghost<Self>,
    ) -> (r: Result<u64, BackendError>)
        requires
            old(self).wf(),
            pos < len,
            offset + len <= old(self).dev_size,
            buffered::range_aligned(offset, len),
            pos % 512 == 0,
            old(self).page_size == o.page_size,
            old(self).present == o.present,
            pos == 0 || (offset + pos) % old(self).ps() == 0,
            old(out)@ == old(self).bytes().subrange(offset as int, offset + pos),
            old(self).budget is Some ==> old(self).used(o, offset as int, pos as int),
        ensures
            final(self).ticks() <= old(self).ticks() + 1,
            final(self).wf(),
            final(self).bytes() == old(self).bytes(),
            final(self).durable() == old(self).durable(),
            final(self).faithful == old(self).faithful,
            final(self).grows(*old(self)),
            final(self).present == old(self).present,
            final(self).dirty == old(self).dirty,
            final(self).unsaved == old(self).unsaved,
            final(self).dev_size == old(self).dev_size,
            final(self).num_pages == old(self).num_pages,
            final(self).page_size == old(self).page_size,
            final(self).budget is Some == old(self).budget is Some,
            r matches Ok(n) ==> {
                &&& 0 < n <= len - pos
                &&& n % 512 == 0
                &&& n == pages::piece(old(self).ps(), offset as int, len as int, pos as int)
                &&& !old(self).here((offset + pos) / old(self).ps()) ==> final(self).inner.requests()
                    == old(self).inner.requests().push(
                    (Request::Read { offset: (offset + pos) as u64, len: n }),
                )
                &&& pos + n == len || (offset + pos + n) % old(self).ps() == 0
                &&& final(out)@ == old(self).bytes().subrange(offset as int, offset + pos + n)
                &&& final(self).budget is Some ==> final(self).used(o, offset as int, pos + n)
            },
            old(self).here((offset + pos) / old(self).ps()) ==> final(self).inner == old(self).inner,
            r is Err && old(self).even() ==> final(self).store_faults()
                > old(self).store_faults() || final(self).spent(),
    {
        let at: u64 = offset + pos;
        let p: u64 = at / self.page_size;
        let chunk: u64 = next_piece(self.page_size, offset, len, pos);
        proof {
            lemma_page_count(self.dev_size as int, self.ps());
            assert((at as int / self.ps()) < self.num_pages);
        }
        let data = match self.read_piece(p, at, chunk) {
            Ok(data) => data,
            Err(e) => {
                return Err(e);
            },
        };
        pages::append_range(out, &data, 0, data.len());
        proof {
            assert(data@.subrange(0, data@.len() as int) == data@);
            assert(out@ =~= self.bytes().subrange(offset as int, offset + pos + chunk));
            if self.budget is Some {
                self.lemma_used(o, *old(self), offset as int, pos as int, chunk as int);
            }
        }
        Ok(chunk)
    }

    /// Everything but the count of failed requests is the same.
    pub closed spec fn same_but_counted(&self, o: Self) -> bool {
        &&& self.inner == o.inner
        &&& self.data == o.data
        &&& self.meta == o.meta
        &&& self.page_size == o.page_size
        &&& self.dev_size == o.dev_size
        &&& self.num_pages == o.num_pages
        &&& self.head == o.head
        &&& self.present == o.present
        &&& self.dirty == o.dirty
        &&& self.resident == o.resident
        &&& self.lru == o.lru
        &&& self.budget == o.budget
        &&& self.index == o.index
        &&& self.eviction_supported == o.eviction_supported
        &&& self.unsaved == o.unsaved
        &&& self.faithful == o.faithful
        &&& self.asked == o.asked
    }

    /// Everything but the requests made so far is the same.
    pub open spec fn untouched(&self, o: Self) -> bool {
        &&& self.same_setup(o)
        &&& self.same_pages(o)
        &&& self.store() == o.store()
        &&& self.data_file() == o.data_file()
        &&& self.meta_file() == o.meta_file()
        &&& self.bytes() == o.bytes()
        &&& self.unsaved() == o.unsaved()
        &&& self.accounted() == o.accounted()
        &&& self.resident_total() == o.resident_total()
        &&& self.allowance() == o.allowance()
        &&& self.sharing() == o.sharing()
        &&& self.faithful() == o.faithful()
        &&& self.spent() == o.spent()
        &&& self.filed() == o.filed()
        &&& self.pinned() == o.pinned()
        &&& self.tidy() == o.tidy()
        &&& forall|p: u64| #[trigger] self.recency(p) == o.recency(p)
        &&& forall|p: u64| #[trigger] self.evictable(p) == o.evictable(p)
    }

    /// The same pages are in the data file, and the same are dirty.
    pub open spec fn same_pages(&self, o: Self) -> bool {
        &&& self.page_total() == o.page_total()
        &&& forall|p: int| #[trigger] self.here(p) == o.here(p)
        &&& forall|p: int| #[trigger] self.changed(p) == o.changed(p)
    }

    /// Note a request.
    fn note(&mut self, Ghost(request): Ghost<Request>)
        ensures
            final(self).untouched(*old(self)),
            old(self).wf() ==> final(self).wf(),
            final(self).durable() == old(self).durable(),
            final(self).inner == old(self).inner,
            final(self).data == old(self).data,
            final(self).meta == old(self).meta,
            final(self).page_size == old(self).page_size,
            final(self).dev_size == old(self).dev_size,
            final(self).num_pages == old(self).num_pages,
            final(self).head == old(self).head,
            final(self).present == old(self).present,
            final(self).dirty == old(self).dirty,
            final(self).resident == old(self).resident,
            final(self).lru == old(self).lru,
            final(self).budget == old(self).budget,
            final(self).index == old(self).index,
            final(self).eviction_supported == old(self).eviction_supported,
            final(self).unsaved == old(self).unsaved,
            final(self).faithful == old(self).faithful,
            final(self).declined == old(self).declined,
            final(self).asked@ == old(self).asked@.push(request),
    {
        let ghost asked = self.asked@.push(request);
        self.asked = Ghost(asked);
        proof {
            assert(self.bytes() =~= old(self).bytes());
            if old(self).wf() {
                assert(self.recorded()) by {
                    assert forall|q: int|
                        0 <= q < self.num_pages && #[trigger] self.changed(q)
                            && !self.unsaved@.contains(q as u64) implies self.saved(q) by {
                        assert(old(self).changed(q));
                        assert(old(self).saved(q));
                    }
                }
                Self::lemma_wf_same(*old(self), *self);
            }
        }
    }

    /// Count a fair request that is failed here.
    fn decline(&mut self)
        requires
            old(self).wf(),
        ensures
            final(self).wf(),
            final(self).bytes() == old(self).bytes(),
            final(self).same_but_counted(*old(self)),
            final(self).declined@ == old(self).declined@ + 1,
            forall|p: int| #[trigger] final(self).changed(p) == old(self).changed(p),
            forall|p: int| #[trigger] final(self).here(p) == old(self).here(p),
    {
        let ghost n = self.declined@ + 1;
        self.declined = Ghost(n);
        proof {
            Self::lemma_wf_same(*old(self), *self);
        }
    }

    /// With other bits of page `p`, the books still match the other pages.
    proof fn lemma_tidy_but(&self, o: Self, p: u64)
        requires
            self.budget is Some == o.budget is Some,
            self.lru.clock() == o.lru.clock(),
            self.num_pages == o.num_pages,
            self.lru.stamps() == o.lru.stamps(),
            forall|q: u64| q != p ==> #[trigger] self.lru.clean().contains(q) == o.lru.clean().contains(
                q,
            ),
            forall|q: int|
                0 <= q && q != p ==> #[trigger] bitmap::bit(self.present@, q) == bitmap::bit(
                    o.present@,
                    q,
                ),
            forall|q: int|
                0 <= q && q != p ==> #[trigger] bitmap::bit(self.dirty@, q) == bitmap::bit(o.dirty@, q),
        ensures
            o.tidy() ==> self.tidy_but(Some(p)),
    {
        reveal(books_match);
    }

    /// Account the resident page `p`, which is clean exactly when `clean`, and
    /// evict other clean pages if that took the shared total over its limit.
    #[verifier::rlimit(40)]
    fn account_present(&mut self, p: u64, clean: bool) -> (r: Result<(), BackendError>)
        requires
            old(self).wf(),
            p < old(self).num_pages,
            old(self).here(p as int),
            clean == !old(self).changed(p as int),
        ensures
            final(self).ticks() <= old(self).ticks() + 2,
            final(self).wf(),
            final(self).bytes() == old(self).bytes(),
            final(self).durable() == old(self).durable(),
            old(self).faithful() ==> final(self).faithful(),
            final(self).same_but_evicted(*old(self)),
            final(self).here(p as int),
            forall|q: int| 0 <= q && #[trigger] old(self).changed(q) && old(self).here(q) ==> final(self).here(q),
            r is Err <==> old(self).spent(),
            r is Err ==> r == Err::<(), BackendError>(BackendError::ClockExhausted) && *final(self)
                == *old(self),
            r is Ok && old(self).budgeted() ==> final(self).accounted().contains(p),
            !old(self).evicts() ==> final(self).data == old(self).data,
            old(self).tidy_but(Some(p)) && final(self).store_faults() == old(self).store_faults()
                && old(self).dev_size % 512 == 0 ==> final(self).tidy(),
            r is Ok && old(self).bounded() && !(clean && old(self).accounted().contains(p))
                ==> final(self).bounded() && final(self).relieved(*old(self)),
    {
        if self.budget.is_none() {
            return Ok(());
        }
        if self.lru.ticks() == u64::MAX {
            return Err(BackendError::ClockExhausted);
        }
        let over: u64 = self.book(p, clean);
        let ghost charged = *self;
        proof {
            if old(self).accounted().contains(p) {
                assert(self.lru.stamps().dom() =~= old(self).lru.stamps().dom());
                assert(!clean ==> self.unadmitted(*old(self)));
            }
        }
        if over > 0 {
            let done = self.evict_clean(over, Some(p));
            proof {
                assert(charged.here(p as int));
                assert(!done.pages@.contains(p));
                assert forall|q: int| 0 <= q && #[trigger] self.here(q) implies old(self).here(q) by {
                    assert(charged.here(q));
                }
                assert forall|q: int|
                    0 <= q && #[trigger] old(self).changed(q) && old(self).here(q) implies self.here(q) by {
                    assert(charged.changed(q) && charged.here(q));
                }
                if !old(self).evicts() {
                    assert forall|q: int| 0 <= q && #[trigger] old(self).here(q) implies self.here(
                        q,
                    ) by {
                        assert(charged.here(q));
                    }
                }
                assert(charged.accounted().contains(p));
                if old(self).bounded() && !old(self).accounted().contains(p) {
                    let gone = charged.freed(done.pages@);
                    let (a, b) = (charged.budget->0, self.budget->0);
                    assert(b.refunded(a, gone));
                    if gone > 0 {
                        cache_budget::a_balance_moves_the_total(a, b, (a.mine() - gone) as u64);
                    }
                    assert(self.in_order());
                    if gone >= over {
                        lemma_booked_bound(
                            charged.lru.stamps().dom(),
                            self.dev_size as int,
                            self.ps(),
                            self.num_pages as int,
                        );
                        cache_budget::a_refund_of_the_excess_meets_the_limit(a, b, gone);
                    } else if done.refused is None {
                        assert forall|x: u64, y: u64| #[trigger]
                            self.evictable(x) && #[trigger] self.evictable(y) implies x == y by {
                            assert(charged.evictable(x) && charged.evictable(y));
                        }
                    }
                }
            }
        }
        Ok(())
    }

    /// The same cache, perhaps with page `p` loaded and other clean pages gone.
    pub closed spec fn same_but_loaded(&self, o: Self, p: int) -> bool {
        &&& self.page_size == o.page_size
        &&& self.dev_size == o.dev_size
        &&& self.num_pages == o.num_pages
        &&& self.dirty == o.dirty
        &&& self.unsaved == o.unsaved
        &&& self.faithful == o.faithful
        &&& self.grows(o)
        &&& self.eviction_supported == o.eviction_supported
        &&& self.budget is Some == o.budget is Some
        &&& self.index is Some == o.index is Some
        &&& forall|q: int| 0 <= q && q != p && #[trigger] self.here(q) ==> o.here(q)
        &&& forall|q: int| 0 <= q && #[trigger] o.changed(q) && o.here(q) ==> self.here(q)
        &&& !o.evicts() ==> self.index == o.index
        &&& !o.evicts() ==> forall|q: int| 0 <= q && #[trigger] o.here(q) ==> self.here(q)
    }

    /// Put the freshly fetched clean page `p` into the data file.
    #[verifier::rlimit(40)]
    fn store_clean_page(&mut self, p: u64, page: &Vec<u8>) -> (r: Result<(), BackendError>)
        requires
            old(self).wf(),
            p < old(self).num_pages,
            !old(self).here(p as int),
            page@.len() == old(self).len_of(p as int),
            page@ == old(self).inner.bytes().subrange(
                p * old(self).page_size,
                p * old(self).page_size + page@.len(),
            ),
        ensures
            final(self).ticks() <= old(self).ticks() + 2,
            final(self).wf(),
            final(self).bytes() == old(self).bytes(),
            final(self).durable() == old(self).durable(),
            old(self).faithful() ==> final(self).faithful(),
            final(self).inner == old(self).inner,
            final(self).same_but_loaded(*old(self), p as int),
            r is Ok ==> final(self).here(p as int),
            !old(self).evicts() ==> final(self).data.requests() == old(self).data.requests().push(
                old(self).keep(p as int),
            ),
            old(self).spent() ==> final(self).spent(),
            r is Ok && old(self).bounded() ==> final(self).bounded() && final(self).relieved(*old(self)),
            r is Err && old(self).dev_size % 512 == 0 ==> final(self).data.faults()
                > old(self).data.faults() || final(self).spent() && r == Err::<(), BackendError>(
                BackendError::ClockExhausted,
            ),
    {
        let len = self.page_len(p);
        let offset: u64 = p * self.page_size;
        proof {
            pages::lemma_page_aligned(self.ps(), p as int);
        }
        let ghost goal = backend::splice(self.data.bytes(), offset as int, page@);
        proof {
            assert(page@ =~= old(self).bytes().subrange(offset as int, offset + len)) by {
                assert forall|k: int| 0 <= k < len implies #[trigger] page@[k] == old(self).bytes()[offset
                    + k] by {
                    old(self).lemma_page_bytes(p as int, offset + k);
                    assert(old(self).bytes()[offset + k] == old(self).byte_at(offset + k));
                    assert(page@[k] == old(self).inner.bytes()[offset + k]);
                }
            }
        }
        let stored = if pages::all_zero(page) {
            assert(page@ =~= backend::zeros(len as nat));
            self.data.clear(offset, len)
        } else {
            self.data.write(offset, page)
        };
        proof {
            backend::a_change_drifts(self.data, old(self).data, goal);
            assert forall|i: int| 0 <= i < self.dev_size && i / self.ps() != p implies #[trigger] goal[i]
                == old(self).data.bytes()[i] by {
                old(self).lemma_page_bytes(p as int, i);
            }
            self.lemma_apart(*old(self), p as int, goal);
            assert(!old(self).changed(p as int)) by {
                assert(bitmap::bit(old(self).dirty@, p as int) ==> bitmap::bit(old(self).present@, p as int));
            }
            self.lemma_recorded_apart(*old(self), p);
            assert forall|i: int| 0 <= i < self.dev_size && bitmap::bit(self.present@, i / self.ps())
                implies #[trigger] self.data.bytes()[i] == old(self).data.bytes()[i] by {
                old(self).lemma_page_bytes(p as int, i);
                assert(i / self.ps() != p);
                let after = backend::splice(old(self).data.bytes(), offset as int, page@);
                assert(after[i] == old(self).data.bytes()[i]);
            }
            assert forall|i: int| 0 <= i < self.dev_size implies #[trigger] self.byte_at(i) == old(
                self,
            ).byte_at(i) by {
                if self.here(i / self.ps()) {
                    assert(bitmap::bit(self.present@, i / self.ps()));
                    assert(self.data.bytes()[i] == old(self).data.bytes()[i]);
                }
            }
            assert(self.bytes() =~= old(self).bytes());
            assert(self.lru_ok()) by {
                assert forall|q: u64| self.budget is Some && #[trigger] self.lru.clean().contains(q)
                    implies q < self.num_pages && self.here(q as int) && !self.changed(q as int) by {
                    assert(old(self).lru.clean().contains(q));
                    assert(old(self).here(q as int) && !old(self).changed(q as int));
                }
            }
            assert forall|i: int| 0 <= i < self.dev_size && bitmap::bit(self.present@, i / self.ps())
                && !bitmap::bit(self.dirty@, i / self.ps()) implies #[trigger] self.data.bytes()[i]
                == self.inner.bytes()[i] by {
                assert(self.data.bytes()[i] == old(self).data.bytes()[i]);
                assert(old(self).data.bytes()[i] == old(self).inner.bytes()[i]);
            }
            assert(self.wf());
        }
        match stored {
            Ok(()) => {},
            Err(e) => {
                return Err(e);
            },
        }
        let ghost written = *self;
        proof {
            lemma_page_count(self.dev_size as int, self.ps());
        }
        bitmap::bit_set(&mut self.present, p, true);
        proof {
            assert(!old(self).changed(p as int)) by {
                assert(bitmap::bit(old(self).dirty@, p as int) ==> bitmap::bit(old(self).present@, p as int));
            }
            assert forall|i: int| 0 <= i < self.dev_size && i / self.ps() == p implies #[trigger] self.data.bytes()[i]
                == self.inner.bytes()[i] by {
                old(self).lemma_page_bytes(p as int, i);
                assert(page@[i - offset] == self.inner.bytes()[i]);
            }
            assert forall|i: int| 0 <= i < self.dev_size && bitmap::bit(self.present@, i / self.ps())
                && !bitmap::bit(self.dirty@, i / self.ps()) implies #[trigger] self.data.bytes()[i]
                == self.inner.bytes()[i] by {
                written.lemma_page_bytes(p as int, i);
                if i / self.ps() != p {
                    assert(bitmap::bit(written.present@, i / self.ps()));
                    assert(written.data.bytes()[i] == written.inner.bytes()[i]);
                }
            }
            assert forall|q: int|
                0 <= q < page_count(self.dev_size as int, self.ps()) && #[trigger] bitmap::bit(self.dirty@, q)
                implies bitmap::bit(self.present@, q) by {
                assert(bitmap::bit(written.present@, q));
            }
            assert(self.recorded()) by {
                assert forall|q: int|
                    0 <= q < self.num_pages && #[trigger] self.changed(q) && !self.unsaved@.contains(
                        q as u64,
                    ) implies self.saved(q) by {
                    assert(written.changed(q));
                    assert(written.saved(q));
                }
            }
            assert forall|q: u64| self.budget is Some && #[trigger] self.lru.clean().contains(q)
                implies q < self.num_pages && self.here(q as int) && !self.changed(q as int) by {
                assert(written.lru.clean().contains(q));
                assert(written.here(q as int));
            }
            assert forall|i: int| 0 <= i < self.dev_size implies #[trigger] self.byte_at(i)
                == written.byte_at(i) by {
                written.lemma_page_bytes(p as int, i);
                if i / self.ps() == p {
                    assert(self.here(p as int));
                    assert(self.data.bytes()[i] == self.inner.bytes()[i]);
                    assert(!written.here(p as int));
                } else {
                    assert(self.here(i / self.ps()) == written.here(i / self.ps()));
                }
            }
            assert(self.bytes() =~= written.bytes());
        }
        let ghost set = *self;
        self.save_present(p);
        let ghost saved = *self;
        proof {
            assert(saved.here(p as int));
            assert(!saved.changed(p as int)) by {
                assert(saved.changed(p as int) == old(self).changed(p as int));
            }
        }
        proof {
            if old(self).filed() && saved.meta.faults() == set.meta.faults() {
                old(self).lemma_filed_byte(p as int / 8);
                assert(saved.img()[64 + saved.bm() + p as int / 8] == saved.dirty@[p as int / 8]);
                assert(old(self).meta.bytes()[64 + saved.bm() + p as int / 8] == set.img()[64
                    + saved.bm() + p as int / 8]);
                saved.lemma_filed(*old(self), p as int);
            }
            saved.lemma_tidy_but(*old(self), p);
            saved.lemma_same_books(*old(self));
            assert(old(self).budget is Some ==> !saved.accounted().contains(p)) by {
                assert(saved.lru.stamps() == old(self).lru.stamps());
                assert(old(self).lru.stamps().contains_key(p) && old(self).budget is Some
                    ==> old(self).here(p as int));
            }
        }
        let r = self.account_present(p, true);
        proof {
            if r is Ok && old(self).bounded() {
                self.lemma_relieved(saved, *old(self));
            }
            assert forall|q: int| 0 <= q && q != p && #[trigger] self.here(q) implies old(self).here(q) by {
                assert(saved.here(q));
                assert(set.here(q));
                assert(written.here(q));
            }
            assert forall|q: int| 0 <= q && #[trigger] old(self).changed(q) && old(self).here(q)
                implies self.here(q) by {
                assert(written.here(q));
                assert(set.here(q));
                assert(saved.here(q) && saved.changed(q));
            }
            if !old(self).evicts() {
                assert forall|q: int| 0 <= q && #[trigger] old(self).here(q) implies self.here(q) by {
                    assert(written.here(q));
                    assert(set.here(q));
                    assert(saved.here(q));
                }
            }
        }
        r
    }

    /// Bring page `p` into the data file.
    fn ensure_page(&mut self, p: u64) -> (r: Result<(), BackendError>)
        requires
            old(self).wf(),
            p < old(self).num_pages,
        ensures
            final(self).ticks() <= old(self).ticks() + 2,
            final(self).wf(),
            final(self).bytes() == old(self).bytes(),
            final(self).durable() == old(self).durable(),
            old(self).faithful() ==> final(self).faithful(),
            final(self).same_but_loaded(*old(self), p as int),
            final(self).inner.bytes() == old(self).inner.bytes(),
            r is Ok ==> final(self).here(p as int),
            old(self).spent() ==> final(self).spent(),
            r is Ok && old(self).bounded() ==> final(self).bounded() && final(self).relieved(*old(self)),
            r is Err && old(self).even() ==> final(self).store_faults()
                > old(self).store_faults() || final(self).spent() && r == Err::<(), BackendError>(
                BackendError::ClockExhausted,
            ),
            old(self).here(p as int) ==> r is Ok && *final(self) == *old(self),
            r is Ok && !old(self).here(p as int) && !old(self).evicts() ==> final(self).data.requests()
                == old(self).data.requests().push(old(self).keep(p as int)),
            !old(self).here(p as int) ==> final(self).inner.requests()
                == old(self).inner.requests().push(old(self).fetch(p as int)),
    {
        if bitmap::bit_get(&self.present, p) {
            proof {
                self.lemma_same_books(*old(self));
            }
            return Ok(());
        }
        let len = self.page_len(p);
        let offset: u64 = p * self.page_size;
        proof {
            pages::lemma_page_aligned(self.ps(), p as int);
        }
        let r = self.inner.read(offset, len);
        let ghost read = *self;
        proof {
            assert(self.lru_ok()) by {
                assert forall|q: u64| self.budget is Some && #[trigger] self.lru.clean().contains(q)
                    implies q < self.num_pages && self.here(q as int) && !self.changed(q as int) by {
                    assert(old(self).lru.clean().contains(q));
                    assert(old(self).here(q as int) && !old(self).changed(q as int));
                }
            }
            Self::lemma_wf_same(*old(self), *self);
        }
        match r {
            Ok(page) => {
                if page.len() as u64 != len {
                    return Err(
                        BackendError::ShortRead { offset, expected: len, got: page.len() as u64 },
                    );
                }
                let s = self.store_clean_page(p, &page);
                proof {
                    read.lemma_same_books(*old(self));
                    if s is Ok && old(self).bounded() {
                        self.lemma_relieved(read, *old(self));
                    }
                    assert forall|q: int| 0 <= q && q != p && #[trigger] self.here(q) implies old(self).here(
                        q,
                    ) by {
                        assert(read.here(q));
                    }
                    assert forall|q: int| 0 <= q && #[trigger] old(self).changed(q) && old(self).here(q)
                        implies self.here(q) by {
                        assert(read.here(q) && read.changed(q));
                    }
                    if !old(self).evicts() {
                        assert forall|q: int| 0 <= q && #[trigger] old(self).here(q) implies self.here(
                            q,
                        ) by {
                            assert(read.here(q));
                        }
                    }
                }
                s
            },
            Err(e) => Err(e),
        }
    }

    /// A failed change of the data file left page `p` unlike the inner backend:
    /// treat it as dirty.
    fn mark_torn(&mut self, p: u64, Ghost(before): Ghost<Self>)
        requires
            before.wf(),
            p < before.num_pages,
            before.here(p as int),
            before.budget is Some ==> !before.lru.clean().contains(p),
            !before.shown(p),
            old(self).same_but_data(before),
            old(self).data.valid(),
            old(self).data.bytes().len() == before.data.bytes().len(),
            forall|i: int|
                0 <= i < before.dev_size && i / before.ps() != p ==> #[trigger] old(self).data.bytes()[i]
                    == before.data.bytes()[i],
            old(self).apart(before, p as int),
        ensures
            final(self).wf(),
            final(self).bytes() == Seq::new(
                before.dev_size as nat,
                |i: int| if i / before.ps() == p { old(self).data.bytes()[i] } else { before.byte_at(i) },
            ),
            final(self).inner == before.inner,
            final(self).page_size == before.page_size,
            final(self).dev_size == before.dev_size,
            final(self).num_pages == before.num_pages,
            final(self).unsaved@ == before.unsaved@.insert(p),
            final(self).faithful == before.faithful,
            final(self).counts(*old(self)),
            final(self).present == before.present,
            final(self).lru == before.lru,
            final(self).budget == before.budget,
            final(self).resident == before.resident,
            final(self).data == old(self).data,
            final(self).meta == old(self).meta,
            forall|q: int| 0 <= q ==> #[trigger] final(self).changed(q) == (before.changed(q) || q == p),
    {
        proof {
            lemma_page_count(self.dev_size as int, self.ps());
        }
        self.unsaved = Ghost(self.unsaved@.insert(p));
        bitmap::bit_set(&mut self.dirty, p, true);
        proof {
            self.lemma_dirtied(before, p);
            let want = Seq::new(
                before.dev_size as nat,
                |i: int| if i / before.ps() == p { old(self).data.bytes()[i] } else { before.byte_at(i) },
            );
            assert forall|i: int| 0 <= i < self.dev_size implies #[trigger] self.byte_at(i) == want[i] by {
                before.lemma_page_bytes(p as int, i);
            }
            assert(self.bytes() =~= want);
        }
    }

    /// Everything but the data file is the same.
    spec fn same_but_data(&self, o: Self) -> bool {
        &&& self.inner == o.inner
        &&& self.meta == o.meta
        &&& self.page_size == o.page_size
        &&& self.dev_size == o.dev_size
        &&& self.num_pages == o.num_pages
        &&& self.head == o.head
        &&& self.present == o.present
        &&& self.dirty == o.dirty
        &&& self.resident == o.resident
        &&& self.lru == o.lru
        &&& self.budget == o.budget
        &&& self.index == o.index
        &&& self.eviction_supported == o.eviction_supported
        &&& self.unsaved == o.unsaved
        &&& self.faithful == o.faithful
        &&& self.grows(o)
    }

    /// `self` is `o` with other bytes in page `p`, which is present and dirty now
    /// and not known to be saved.
    proof fn lemma_dirtied(&self, o: Self, p: u64)
        requires
            o.wf(),
            p < o.num_pages,
            o.budget is Some ==> !o.lru.clean().contains(p),
            !o.shown(p),
            self.inner == o.inner,
            self.meta == o.meta,
            self.data.valid(),
            self.page_size == o.page_size,
            self.dev_size == o.dev_size,
            self.num_pages == o.num_pages,
            self.head == o.head,
            self.lru == o.lru,
            self.resident == o.resident,
            self.budget == o.budget,
            self.index == o.index,
            self.faithful == o.faithful,
            self.present@.len() == o.present@.len(),
            self.dirty@.len() == o.dirty@.len(),
            forall|q: int|
                0 <= q ==> #[trigger] bitmap::bit(self.present@, q) == (bitmap::bit(o.present@, q) || q
                    == p),
            forall|q: int|
                0 <= q ==> #[trigger] bitmap::bit(self.dirty@, q) == (bitmap::bit(o.dirty@, q) || q == p),
            self.unsaved@ == o.unsaved@.insert(p),
            self.data.bytes().len() == o.data.bytes().len(),
            forall|i: int|
                0 <= i < o.dev_size && i / o.ps() != p ==> #[trigger] self.data.bytes()[i]
                    == o.data.bytes()[i],
            self.apart(o, p as int),
        ensures
            self.wf(),
    {
        assert(self.img().len() == o.img().len());
        assert forall|i: int| 0 <= i < self.dev_size && bitmap::bit(self.present@, i / self.ps())
            && !bitmap::bit(self.dirty@, i / self.ps()) implies #[trigger] self.data.bytes()[i]
            == self.inner.bytes()[i] by {
            o.lemma_page_bytes(p as int, i);
            assert(i / self.ps() != p);
            assert(bitmap::bit(o.present@, i / self.ps()));
            assert(!bitmap::bit(o.dirty@, i / self.ps()));
            assert(o.data.bytes()[i] == o.inner.bytes()[i]);
        }
        assert forall|q: int|
            0 <= q < page_count(self.dev_size as int, self.ps()) && #[trigger] bitmap::bit(self.dirty@, q)
            implies bitmap::bit(self.present@, q) by {
            if q != p {
                assert(bitmap::bit(o.dirty@, q));
                assert(bitmap::bit(o.present@, q));
            }
        }
        assert forall|q: u64| self.budget is Some && #[trigger] self.lru.clean().contains(q) implies q
            < self.num_pages && self.here(q as int) && !self.changed(q as int) by {
            assert(o.lru.clean().contains(q));
            assert(o.here(q as int) && !o.changed(q as int));
            assert(bitmap::bit(self.present@, q as int));
            assert(!bitmap::bit(self.dirty@, q as int));
        }
        assert forall|q: u64| self.budget is Some && #[trigger] self.lru.stamps().contains_key(q)
            implies q < self.num_pages && self.here(q as int) by {
            assert(o.lru.stamps().contains_key(q));
            assert(o.here(q as int));
            assert(bitmap::bit(self.present@, q as int));
        }
        assert(self.recorded()) by {
            assert forall|q: int|
                0 <= q < self.num_pages && #[trigger] self.changed(q) && !self.unsaved@.contains(q as u64)
                implies self.saved(q) by {
                assert(q != p);
                assert(bitmap::bit(self.dirty@, q) == (bitmap::bit(o.dirty@, q) || q == p));
                assert(o.changed(q));
                assert(!o.unsaved@.contains(q as u64));
                lemma_page_count(o.dev_size as int, o.ps());
                assert(bitmap::bit(o.dirty@, q));
                Self::lemma_saved_kept(o, *self, q, p as int);
            }
        }
    }

    /// Write `payload` into page `p` of the data file, at `offset` of the file, and make it
    /// durable.
    #[verifier::rlimit(40)]
    fn write_data(&mut self, p: u64, offset: u64, payload: &Vec<u8>) -> (r: Result<(), BackendError>)
        requires
            old(self).wf(),
            p < old(self).num_pages,
            payload@.len() > 0,
            p * old(self).page_size <= offset,
            offset + payload@.len() <= p * old(self).page_size + old(self).len_of(p as int),
            offset % 512 == 0,
            payload@.len() % 512 == 0,
        ensures
            final(self).same_but_data(*old(self)),
            final(self).data.valid(),
            final(self).data.bytes().len() == old(self).data.bytes().len(),
            forall|i: int|
                0 <= i < old(self).dev_size && i / old(self).ps() != p
                    ==> #[trigger] final(self).data.bytes()[i] == old(self).data.bytes()[i],
            final(self).apart(*old(self), p as int),
            r is Ok ==> final(self).data.bytes() == backend::splice(
                old(self).data.bytes(),
                offset as int,
                payload@,
            ) && final(self).data_firm(p as int),
            r is Err ==> backend::torn(
                final(self).data.bytes(),
                old(self).data.bytes(),
                backend::splice(old(self).data.bytes(), offset as int, payload@),
            ),
            r is Err && old(self).dev_size % 512 == 0 ==> final(self).data.faults()
                > old(self).data.faults(),
    {
        let ghost start = *self;
        let ghost after = backend::splice(start.data.bytes(), offset as int, payload@);
        proof {
            lemma_page_count(self.dev_size as int, self.ps());
        }
        let w = self.data.write(offset, payload);
        proof {
            assert forall|i: int| 0 <= i < start.dev_size && i / start.ps() != p implies #[trigger] self.data.bytes()[i]
                == start.data.bytes()[i] by {
                start.lemma_page_bytes(p as int, i);
                assert(after[i] == start.data.bytes()[i]);
            }
            backend::a_change_drifts(self.data, start.data, after);
            assert forall|i: int| 0 <= i < start.dev_size && i / start.ps() != p implies #[trigger] after[i]
                == start.data.bytes()[i] by {
                start.lemma_page_bytes(p as int, i);
            }
            self.lemma_apart(start, p as int, after);
        }
        let ghost put = *self;
        let w2 = match w {
            Ok(()) => self.data.flush(),
            Err(e) => Err(e),
        };
        proof {
            if w is Ok {
                backend::a_change_drifts(self.data, put.data, put.data.bytes());
            }
            assert(self.apart(start, p as int)) by {
                assert forall|i: int, x: u8|
                    0 <= i < start.dev_size && i / start.ps() != p && #[trigger] backend::may_hold(
                        self.data,
                        i,
                        x,
                    ) implies backend::may_hold(start.data, i, x) by {
                    assert(backend::may_hold(put.data, i, x));
                }
            }
            if w2 is Ok {
                assert(self.data_firm(p as int));
            }
        }
        w2
    }

    /// Write `payload` into page `p` at `at` in the data file, and store that the page is
    /// present and dirty.
    #[verifier::rlimit(40)]
    fn store_dirty(&mut self, p: u64, at: u64, payload: &Vec<u8>) -> (r: Result<(), BackendError>)
        requires
            old(self).wf(),
            p < old(self).num_pages,
            payload@.len() > 0,
            at + payload@.len() <= old(self).len_of(p as int),
            at % 512 == 0,
            payload@.len() % 512 == 0,
            old(self).here(p as int) || (at == 0 && payload@.len() == old(self).len_of(p as int)),
        ensures
            forall|q: int|
                0 <= q && #[trigger] final(self).here(q) ==> old(self).here(q) || q == p,
            final(self).wf(),
            final(self).inner == old(self).inner,
            final(self).durable() == old(self).durable(),
            final(self).faithful == old(self).faithful,
            final(self).page_size == old(self).page_size,
            final(self).dev_size == old(self).dev_size,
            final(self).num_pages == old(self).num_pages,
            final(self).counts(*old(self)),
            final(self).budget == old(self).budget,
            final(self).resident == old(self).resident,
            final(self).lru.stamps() == old(self).lru.stamps(),
            final(self).lru.clock() == old(self).lru.clock(),
            forall|q: u64| #[trigger]
                final(self).lru.clean().contains(q) ==> old(self).lru.clean().contains(q),
            r is Err && old(self).dev_size % 512 == 0 ==> final(self).store_faults()
                > old(self).store_faults(),
            r is Ok ==> {
                &&& final(self).bytes() == backend::splice(
                    old(self).bytes(),
                    p * old(self).page_size + at,
                    payload@,
                )
                &&& final(self).here(p as int)
                &&& final(self).changed(p as int)
                &&& final(self).unsaved@.subset_of(old(self).unsaved@)
                &&& !final(self).unsaved@.contains(p)
                &&& old(self).filed() ==> final(self).filed()
                &&& old(self).pinned() ==> final(self).pinned()
                &&& old(self).tidy() ==> final(self).tidy_but(Some(p))
            },
            r is Err ==> backend::torn(
                final(self).bytes(),
                old(self).bytes(),
                backend::splice(old(self).bytes(), p * old(self).page_size + at, payload@),
            ),
            forall|q: int| 0 <= q && #[trigger] old(self).here(q) ==> final(self).here(q),
            forall|q: int| 0 <= q && q != p ==> #[trigger] final(self).changed(q) == old(self).changed(q),
            old(self).changed(p as int) ==> final(self).changed(p as int),
    {
        proof {
            lemma_page_count(self.dev_size as int, self.ps());
            pages::lemma_in_page(self.ps(), p as int, 0);
            pages::lemma_page_aligned(self.ps(), p as int);
        }
        self.withdraw(p);
        let ghost withdrawn = *self;
        if self.budget.is_some() {
            self.lru.pin(p);
        }
        proof {
            assert forall|q: u64| self.budget is Some && #[trigger] self.lru.clean().contains(q)
                implies q < self.num_pages && self.here(q as int) && !self.changed(q as int) by {
                assert(withdrawn.lru.clean().contains(q));
                assert(withdrawn.here(q as int) && !withdrawn.changed(q as int));
            }
            Self::lemma_wf_same(withdrawn, *self);
            assert(!withdrawn.shown(p));
        }
        let ghost start = *self;
        let page_start: u64 = p * self.page_size;
        let offset: u64 = page_start + at;
        let was_here = bitmap::bit_get(&self.present, p);
        let ghost goal = backend::splice(old(self).bytes(), offset as int, payload@);
        let ghost after = backend::splice(start.data.bytes(), offset as int, payload@);
        let w2 = self.write_data(p, offset, payload);
        match w2 {
            Ok(()) => {},
            Err(e) => {
                if was_here {
                    self.mark_torn(p, Ghost(start));
                    proof {
                        assert forall|i: int| 0 <= i < self.bytes().len() implies #[trigger] self.bytes()[i]
                            == old(self).bytes()[i] || self.bytes()[i] == goal[i] by {
                            start.lemma_page_bytes(p as int, i);
                            assert(start.byte_at(i) == old(self).bytes()[i]);
                        }
                        assert(backend::torn(self.bytes(), old(self).bytes(), goal));
                    }
                } else {
                    proof {
                        self.lemma_unused_page(start, p);
                        assert(backend::torn(self.bytes(), old(self).bytes(), goal));
                    }
                }
                return Err(e);
            },
        }
        self.unsaved = Ghost(self.unsaved@.insert(p));
        bitmap::bit_set(&mut self.present, p, true);
        bitmap::bit_set(&mut self.dirty, p, true);
        proof {
            self.lemma_dirtied(start, p);
            assert forall|i: int| 0 <= i < self.dev_size implies #[trigger] self.byte_at(i) == goal[i] by {
                start.lemma_page_bytes(p as int, i);
                assert(start.byte_at(i) == old(self).bytes()[i]);
                assert(after[i] == self.data.bytes()[i]);
                if i / self.ps() == p {
                    assert(bitmap::bit(self.present@, p as int));
                    if !start.here(p as int) {
                        assert(offset <= i < offset + payload@.len());
                    }
                } else {
                    assert(bitmap::bit(self.present@, i / self.ps()) == bitmap::bit(
                        start.present@,
                        i / self.ps(),
                    ));
                }
            }
            assert(self.bytes() =~= goal);
        }
        let ghost marked = *self;
        assert(marked.data_firm(p as int));
        let s = self.persist_meta_bit(p);
        proof {
            assert forall|q: int| 0 <= q && q != p implies #[trigger] self.changed(q) == old(self).changed(q) by {
                assert(marked.changed(q) == start.changed(q));
            }
            assert(marked.changed(p as int));
            assert(backend::torn(self.bytes(), old(self).bytes(), goal));
        }
        match s {
            Ok(()) => {},
            Err(e) => {
                proof {
                    assert forall|q: int| 0 <= q && #[trigger] old(self).here(q) implies self.here(q) by {
                        assert(bitmap::bit(marked.present@, q));
                    }
                    assert forall|q: int| 0 <= q && #[trigger] self.here(q) implies old(self).here(q)
                        || q == p by {
                        assert(bitmap::bit(marked.present@, q));
                    }
                }
                return Err(e);
            },
        }
        let ghost persisted = *self;
        proof {
            persisted.lemma_persisted(*old(self), marked, p);
            persisted.lemma_tidy_but(*old(self), p);
        }
        self.unsaved = Ghost(self.unsaved@.remove(p));
        proof {
            assert(self.recorded()) by {
                assert forall|q: int|
                    0 <= q < self.num_pages && #[trigger] self.changed(q) && !self.unsaved@.contains(
                        q as u64,
                    ) implies self.saved(q) by {
                    assert(persisted.changed(q));
                    if q != p {
                        assert(!persisted.unsaved@.contains(q as u64));
                    }
                    assert(persisted.saved(q));
                }
            }
            assert(self.lru_ok()) by {
                assert forall|q: u64| self.budget is Some && #[trigger] self.lru.clean().contains(q)
                    implies q < self.num_pages && self.here(q as int) && !self.changed(q as int) by {
                    assert(persisted.lru.clean().contains(q));
                    assert(persisted.here(q as int) && !persisted.changed(q as int));
                }
            }
            assert(self.wf());
            assert(self.bytes() =~= persisted.bytes());
            assert(self.changed(p as int) && self.here(p as int)) by {
                assert(bitmap::bit(marked.present@, p as int));
                assert(bitmap::bit(marked.dirty@, p as int));
            }
        }
        proof {
            assert forall|q: int| 0 <= q && #[trigger] old(self).here(q) implies self.here(q) by {
                assert(bitmap::bit(marked.present@, q));
            }
            assert forall|q: int| 0 <= q && #[trigger] self.here(q) implies old(self).here(q) || q == p by {
                assert(bitmap::bit(marked.present@, q));
            }
        }
        Ok(())
    }

    /// Write `payload` into page `p` at `at` and mark the page dirty.
    #[verifier::rlimit(40)]
    fn dirty_page_region(&mut self, p: u64, at: u64, payload: &Vec<u8>) -> (r: Result<(), BackendError>)
        requires
            old(self).wf(),
            p < old(self).num_pages,
            payload@.len() > 0,
            at + payload@.len() <= old(self).len_of(p as int),
            at % 512 == 0,
            payload@.len() % 512 == 0,
            old(self).here(p as int) || (at == 0 && payload@.len() == old(self).len_of(p as int)),
        ensures
            forall|q: int|
                0 <= q && #[trigger] final(self).here(q) ==> old(self).here(q) || q == p,
            final(self).inner == old(self).inner,
            !old(self).evicts() ==> forall|q: int|
                0 <= q && #[trigger] old(self).here(q) ==> final(self).here(q),
            final(self).ticks() <= old(self).ticks() + 2,
            final(self).wf(),
            final(self).durable() == old(self).durable(),
            old(self).faithful() ==> final(self).faithful(),
            final(self).page_size == old(self).page_size,
            final(self).dev_size == old(self).dev_size,
            final(self).num_pages == old(self).num_pages,
            final(self).grows(*old(self)),
            r is Err && old(self).dev_size % 512 == 0 ==> final(self).store_faults() > old(self).store_faults() || final(self).spent()
                && r == Err::<(), BackendError>(BackendError::ClockExhausted),
            r is Ok ==> final(self).bytes() == backend::splice(
                old(self).bytes(),
                p * old(self).page_size + at,
                payload@,
            ) && final(self).changed(p as int) && final(self).unsaved@.subset_of(old(self).unsaved@)
                && !final(self).unsaved@.contains(p),
            r is Ok && old(self).bounded() ==> final(self).bounded() && final(self).relieved(*old(self)),
            r is Err ==> backend::torn(
                final(self).bytes(),
                old(self).bytes(),
                backend::splice(old(self).bytes(), p * old(self).page_size + at, payload@),
            ),
            forall|q: int| 0 <= q && q != p ==> #[trigger] final(self).changed(q) == old(self).changed(q),
            old(self).changed(p as int) ==> final(self).changed(p as int),
    {
        match self.store_dirty(p, at, payload) {
            Ok(()) => {},
            Err(e) => {
                return Err(e);
            },
        }
        let ghost cleaned = *self;
        let r = self.account_present(p, false);
        proof {
            if r is Ok && old(self).bounded() {
                assert(cleaned.unadmitted(*old(self))) by {
                    assert forall|q: u64| #[trigger] cleaned.evictable(q) implies old(self).evictable(q) by {
                        assert(cleaned.lru.clean().contains(q));
                    }
                }
                self.lemma_relieved(cleaned, *old(self));
            }
            assert(cleaned.changed(p as int));
            assert(self.changed(p as int));
            assert forall|q: int| 0 <= q && q != p implies #[trigger] self.changed(q) == old(self).changed(q) by {
                assert(cleaned.changed(q) == old(self).changed(q));
            }
            assert forall|q: int| 0 <= q && #[trigger] self.here(q) implies old(self).here(q) || q == p by {
                assert(cleaned.here(q));
            }
            if !old(self).evicts() {
                assert forall|q: int| 0 <= q && #[trigger] old(self).here(q) implies self.here(q) by {
                    assert(cleaned.here(q));
                }
            }
        }
        r
    }

    /// Once the bits of page `p` have been stored, the metadata file has them all, if it
    /// had those of the other pages.
    proof fn lemma_persisted(&self, o: Self, marked: Self, p: u64)
        requires
            o.shape(),
            self.wf(),
            p < o.num_pages,
            self.num_pages == o.num_pages,
            marked.meta.bytes() == o.meta.bytes(),
            marked.head == self.head,
            marked.present == self.present,
            marked.dirty == self.dirty,
            forall|k: int|
                0 <= k < self.bm() && k != p as int / 8 ==> #[trigger] self.present@[k] == o.present@[k],
            forall|k: int|
                0 <= k < self.bm() && k != p as int / 8 ==> #[trigger] self.dirty@[k] == o.dirty@[k],
            backend::settled(self.meta),
            self.meta.bytes()[64 + p as int / 8] == self.present@[p as int / 8],
            self.meta.bytes()[64 + self.bm() + p as int / 8] == self.dirty@[p as int / 8],
            forall|i: int|
                0 <= i < marked.img().len() && marked.meta.bytes()[i] == marked.img()[i]
                    ==> #[trigger] self.meta.bytes()[i] == marked.img()[i],
        ensures
            o.filed() ==> self.filed(),
            o.pinned() ==> self.pinned(),
    {
        lemma_page_count(o.dev_size as int, o.ps());
        if o.filed() {
            self.lemma_filed(o, p as int);
        }
        if o.pinned() {
            reveal(holds_firmly);
            self.lemma_fitting_head();
            let n = self.bm();
            assert(self.img().len() >= 64 + 2 * n);
            assert forall|i: int, x: u8|
                0 <= i - 64 - self.dirty@.len() < self.dirty@.len() && #[trigger] backend::may_hold(
                    self.meta,
                    i,
                    x,
                ) implies x == self.dirty@[i - 64 - self.dirty@.len()] by {
                let k = i - 64 - n;
                assert(marked.img()[i] == self.dirty@[k]);
                if k != p as int / 8 {
                    assert(backend::may_hold(o.meta, i, o.meta.bytes()[i]));
                    assert(o.meta.bytes()[i] == o.dirty@[k]);
                }
                assert(self.meta.bytes()[i] == self.dirty@[k]);
            }
        }
    }

    /// Other bytes in a page that is not present change nothing.
    proof fn lemma_unused_page(&self, o: Self, p: u64)
        requires
            o.wf(),
            p < o.num_pages,
            !o.here(p as int),
            self.same_but_data(o),
            self.data.valid(),
            self.data.bytes().len() == o.data.bytes().len(),
            forall|i: int|
                0 <= i < o.dev_size && i / o.ps() != p ==> #[trigger] self.data.bytes()[i]
                    == o.data.bytes()[i],
            self.apart(o, p as int),
        ensures
            self.wf(),
            self.bytes() == o.bytes(),
    {
        assert forall|i: int| 0 <= i < self.dev_size && bitmap::bit(self.present@, i / self.ps())
            && !bitmap::bit(self.dirty@, i / self.ps()) implies #[trigger] self.data.bytes()[i]
            == self.inner.bytes()[i] by {
            assert(i / self.ps() != p);
            assert(o.data.bytes()[i] == o.inner.bytes()[i]);
        }
        assert forall|q: u64| self.budget is Some && #[trigger] self.lru.clean().contains(q) implies q
            < self.num_pages && self.here(q as int) && !self.changed(q as int) by {
            assert(o.lru.clean().contains(q));
            assert(o.here(q as int) && !o.changed(q as int));
        }
        assert(self.recorded()) by {
            lemma_page_count(o.dev_size as int, o.ps());
            assert(bitmap::bit(o.dirty@, p as int) ==> bitmap::bit(o.present@, p as int));
            self.lemma_recorded_apart(o, p);
        }
        assert forall|i: int| 0 <= i < self.dev_size implies #[trigger] self.byte_at(i) == o.byte_at(i) by {
            if self.here(i / self.ps()) {
                assert(i / self.ps() != p);
                assert(self.data.bytes()[i] == o.data.bytes()[i]);
            }
        }
        assert(self.bytes() =~= o.bytes());
    }

    /// The bytes of the dirty page `p`, out of the data file.
    fn load_dirty(&mut self, p: u64) -> (r: Result<Vec<u8>, BackendError>)
        requires
            old(self).wf(),
            p < old(self).num_pages,
            old(self).changed(p as int),
        ensures
            final(self).wf(),
            final(self).bytes() == old(self).bytes(),
            final(self).inner == old(self).inner,
            final(self).page_size == old(self).page_size,
            final(self).dev_size == old(self).dev_size,
            final(self).num_pages == old(self).num_pages,
            final(self).head == old(self).head,
            final(self).present == old(self).present,
            final(self).resident == old(self).resident,
            final(self).lru == old(self).lru,
            final(self).budget == old(self).budget,
            final(self).index == old(self).index,
            final(self).eviction_supported == old(self).eviction_supported,
            final(self).unsaved == old(self).unsaved,
            final(self).faithful == old(self).faithful,
            final(self).counts(*old(self)),
            final(self).dirty == old(self).dirty,
            final(self).meta == old(self).meta,
            final(self).data.bytes() == old(self).data.bytes(),
            r is Err && old(self).dev_size % 512 == 0 ==> final(self).data.faults()
                > old(self).data.faults(),
            r matches Ok(page) ==> page@ == old(self).bytes().subrange(
                p * old(self).page_size,
                p * old(self).page_size + old(self).len_of(p as int),
            ),
    {
        let len = self.page_len(p);
        let offset: u64 = p * self.page_size;
        proof {
            lemma_page_count(self.dev_size as int, self.ps());
            pages::lemma_page_aligned(self.ps(), p as int);
            assert(bitmap::bit(self.dirty@, p as int));
            assert(self.here(p as int));
        }
        let rd = self.data.read(offset, len);
        proof {
            assert(self.lru_ok()) by {
                assert forall|q: u64| self.budget is Some && #[trigger] self.lru.clean().contains(q)
                    implies q < self.num_pages && self.here(q as int) && !self.changed(q as int) by {
                    assert(old(self).lru.clean().contains(q));
                    assert(old(self).here(q as int) && !old(self).changed(q as int));
                }
            }
            Self::lemma_wf_same(*old(self), *self);
        }
        let page = match rd {
            Ok(page) => page,
            Err(e) => {
                return Err(e);
            },
        };
        if page.len() as u64 != len {
            return Err(BackendError::ShortRead { offset, expected: len, got: page.len() as u64 });
        }
        proof {
            assert forall|k: int| 0 <= k < len implies #[trigger] page@[k] == old(self).bytes()[offset
                + k] by {
                old(self).lemma_page_bytes(p as int, offset + k);
                assert(old(self).bytes()[offset + k] == old(self).byte_at(offset + k));
            }
            assert(page@ =~= old(self).bytes().subrange(offset as int, offset + len));
        }
        Ok(page)
    }

    /// The cache after a write of the dirty page `p` to the inner backend, complete or
    /// not.
    proof fn lemma_sent(&self, o: Self, p: u64, after: Seq<u8>)
        requires
            o.wf(),
            p < o.num_pages,
            o.changed(p as int),
            self.inner.valid(),
            self.inner.bytes().len() == o.inner.bytes().len(),
            self.data == o.data,
            self.meta == o.meta,
            self.page_size == o.page_size,
            self.dev_size == o.dev_size,
            self.num_pages == o.num_pages,
            self.head == o.head,
            self.present == o.present,
            self.dirty == o.dirty,
            self.resident == o.resident,
            self.lru == o.lru,
            self.budget == o.budget,
            self.index == o.index,
            self.unsaved == o.unsaved,
            self.faithful == o.faithful,
            forall|i: int|
                0 <= i < o.inner.bytes().len() ==> #[trigger] self.inner.bytes()[i] == o.inner.bytes()[i]
                    || self.inner.bytes()[i] == after[i],
            forall|i: int|
                0 <= i < o.dev_size && i / o.ps() != p ==> #[trigger] after[i] == o.inner.bytes()[i],
        ensures
            self.wf(),
            self.bytes() == o.bytes(),
    {
        lemma_page_count(o.dev_size as int, o.ps());
        assert(bitmap::bit(o.dirty@, p as int));
        assert(o.here(p as int));
        assert forall|i: int| 0 <= i < self.dev_size && i / self.ps() != p implies #[trigger] self.inner.bytes()[i]
            == o.inner.bytes()[i] by {
            assert(after[i] == o.inner.bytes()[i]);
        }
        assert forall|i: int| 0 <= i < self.dev_size && bitmap::bit(self.present@, i / self.ps())
            && !bitmap::bit(self.dirty@, i / self.ps()) implies #[trigger] self.data.bytes()[i]
            == self.inner.bytes()[i] by {
            assert(i / self.ps() != p);
            assert(o.data.bytes()[i] == o.inner.bytes()[i]);
            assert(self.inner.bytes()[i] == o.inner.bytes()[i]);
        }
        assert(self.lru_ok()) by {
            assert forall|q: u64| self.budget is Some && #[trigger] self.lru.clean().contains(q)
                implies q < self.num_pages && self.here(q as int) && !self.changed(q as int) by {
                assert(o.lru.clean().contains(q));
                assert(o.here(q as int) && !o.changed(q as int));
            }
        }
        assert(self.recorded()) by {
            assert forall|q: int|
                0 <= q < self.num_pages && #[trigger] self.changed(q) && !self.unsaved@.contains(q as u64)
                implies self.saved(q) by {
                assert(o.changed(q));
                assert(o.saved(q));
            }
        }
        assert forall|i: int| 0 <= i < self.dev_size implies #[trigger] self.byte_at(i) == o.byte_at(i) by {
            if !self.here(i / self.ps()) {
                assert(i / self.ps() != p);
                assert(self.inner.bytes()[i] == o.inner.bytes()[i]);
            }
        }
        assert(self.bytes() =~= o.bytes());
    }

    /// A write of the dirty page `p` to the inner backend drifts towards what the cache
    /// holds.
    proof fn lemma_sent_drifts(&self, o: Self, p: u64, after: Seq<u8>)
        requires
            o.wf(),
            p < o.num_pages,
            o.changed(p as int),
            backend::drifted(self.inner, o.inner, after, after),
            forall|i: int|
                0 <= i < o.inner.bytes().len() ==> #[trigger] after[i] == o.inner.bytes()[i] || i
                    < o.dev_size && after[i] == o.bytes()[i],
        ensures
            backend::drifted(self.inner, o.inner, o.bytes(), o.bytes()),
    {
        assert forall|i: int, b: u8|
            0 <= i < o.inner.bytes().len() && #[trigger] backend::may_hold(self.inner, i, b)
            implies backend::may_hold(o.inner, i, b) || b == o.bytes()[i] by {
            assert(backend::may_hold(o.inner, i, b) || b == after[i]);
            if b == after[i] && after[i] == o.inner.bytes()[i] {
                assert(backend::may_hold(o.inner, i, b));
            }
        }
    }

    /// Write the dirty page `p` to the inner backend.
    fn send_page(&mut self, p: u64) -> (r: Result<(), BackendError>)
        requires
            old(self).wf(),
            p < old(self).num_pages,
            old(self).changed(p as int),
        ensures
            final(self).wf(),
            final(self).bytes() == old(self).bytes(),
            final(self).page_size == old(self).page_size,
            final(self).dev_size == old(self).dev_size,
            final(self).num_pages == old(self).num_pages,
            final(self).head == old(self).head,
            final(self).present == old(self).present,
            final(self).resident == old(self).resident,
            final(self).lru == old(self).lru,
            final(self).budget == old(self).budget,
            final(self).index == old(self).index,
            final(self).eviction_supported == old(self).eviction_supported,
            final(self).unsaved == old(self).unsaved,
            final(self).faithful == old(self).faithful,
            final(self).counts(*old(self)),
            final(self).dirty == old(self).dirty,
            final(self).meta == old(self).meta,
            backend::drifted(
                final(self).inner,
                old(self).inner,
                old(self).bytes(),
                old(self).bytes(),
            ),
            final(self).inner.bytes().len() == old(self).inner.bytes().len(),
            r is Err && old(self).even() ==> final(self).store_faults() > old(self).store_faults(),
            r is Ok ==> final(self).inner.requests() == old(self).inner.requests().push(
                old(self).write_back(p as int),
            ),
            r is Ok ==> forall|i: int|
                0 <= i < old(self).dev_size && i / old(self).ps() == p
                    ==> #[trigger] final(self).data.bytes()[i] == final(self).inner.bytes()[i],
    {
        let len = self.page_len(p);
        let page = match self.load_dirty(p) {
            Ok(page) => page,
            Err(e) => {
                return Err(e);
            },
        };
        let ghost start = *self;
        let offset: u64 = p * self.page_size;
        assert(page@.len() == len);
        let ghost after = backend::splice(start.inner.bytes(), offset as int, page@);
        proof {
            pages::lemma_page_aligned(self.ps(), p as int);
            assert forall|i: int| 0 <= i < start.dev_size && i / start.ps() != p implies #[trigger] after[i]
                == start.inner.bytes()[i] by {
                start.lemma_page_bytes(p as int, i);
            }
            assert forall|i: int| 0 <= i < start.dev_size && i / start.ps() == p implies #[trigger] after[i]
                == start.bytes()[i] && after[i] == start.data.bytes()[i] by {
                start.lemma_page_bytes(p as int, i);
                assert(page@[i - offset] == old(self).bytes()[i]);
                assert(start.bytes()[i] == start.byte_at(i));
                assert(bitmap::bit(start.dirty@, p as int) ==> bitmap::bit(start.present@, p as int));
            }
            assert forall|i: int| 0 <= i < start.inner.bytes().len() implies #[trigger] after[i]
                == start.inner.bytes()[i] || i < start.dev_size && after[i] == start.bytes()[i] by {
                if i < start.dev_size {
                    if i / start.ps() == p {
                        assert(after[i] == start.bytes()[i]);
                    }
                } else {
                    assert(offset + page@.len() <= start.dev_size);
                }
            }
        }
        let w = self.inner.write(offset, &page);
        proof {
            backend::a_change_drifts(self.inner, start.inner, after);
            self.lemma_sent(start, p, after);
            self.lemma_sent_drifts(start, p, after);
        }
        w
    }

    /// Store that page `p`, which the inner backend has, is no longer dirty.
    #[verifier::rlimit(40)]
    fn mark_clean(&mut self, p: u64) -> (r: Result<(), BackendError>)
        requires
            old(self).wf(),
            p < old(self).num_pages,
            old(self).changed(p as int),
            forall|i: int|
                0 <= i < old(self).dev_size && i / old(self).ps() == p
                    ==> #[trigger] old(self).data.bytes()[i] == old(self).inner.bytes()[i],
        ensures
            final(self).wf(),
            final(self).bytes() == old(self).bytes(),
            final(self).inner == old(self).inner,
            final(self).data == old(self).data,
            final(self).page_size == old(self).page_size,
            final(self).dev_size == old(self).dev_size,
            final(self).num_pages == old(self).num_pages,
            final(self).head == old(self).head,
            final(self).present == old(self).present,
            final(self).resident == old(self).resident,
            final(self).lru == old(self).lru,
            final(self).budget == old(self).budget,
            final(self).index == old(self).index,
            final(self).eviction_supported == old(self).eviction_supported,
            final(self).unsaved == old(self).unsaved,
            final(self).faithful == old(self).faithful,
            final(self).counts(*old(self)),
            r is Err ==> final(self).meta.faults() > old(self).meta.faults(),
            final(self).here(p as int),
            !final(self).changed(p as int),
            r is Ok && old(self).filed() ==> final(self).filed(),
            r is Ok && old(self).pinned() ==> final(self).pinned(),
            old(self).tidy() ==> final(self).tidy_but(Some(p)),
            forall|q: int| 0 <= q && q != p ==> #[trigger] final(self).changed(q) == old(self).changed(q),
    {
        proof {
            lemma_page_count(self.dev_size as int, self.ps());
            assert(bitmap::bit(self.dirty@, p as int));
            assert(self.here(p as int));
        }
        let ghost written = *self;
        bitmap::bit_set(&mut self.dirty, p, false);
        proof {
            assert(self.img().len() == written.img().len());
            assert forall|i: int| 0 <= i < self.dev_size && bitmap::bit(self.present@, i / self.ps())
                && !bitmap::bit(self.dirty@, i / self.ps()) implies #[trigger] self.data.bytes()[i]
                == self.inner.bytes()[i] by {
                written.lemma_page_bytes(p as int, i);
                if i / self.ps() != p {
                    assert(!bitmap::bit(written.dirty@, i / self.ps()));
                    assert(written.data.bytes()[i] == written.inner.bytes()[i]);
                }
            }
            assert forall|q: int|
                0 <= q < page_count(self.dev_size as int, self.ps()) && #[trigger] bitmap::bit(self.dirty@, q)
                implies bitmap::bit(self.present@, q) by {
                assert(bitmap::bit(written.dirty@, q));
                assert(bitmap::bit(written.present@, q));
            }
            assert(self.lru_ok()) by {
                assert forall|q: u64| self.budget is Some && #[trigger] self.lru.clean().contains(q)
                    implies q < self.num_pages && self.here(q as int) && !self.changed(q as int) by {
                    assert(written.lru.clean().contains(q));
                    assert(written.here(q as int) && !written.changed(q as int));
                    assert(!bitmap::bit(self.dirty@, q as int));
                }
            }
            assert(self.recorded()) by {
                assert forall|q: int|
                    0 <= q < self.num_pages && #[trigger] self.changed(q) && !self.unsaved@.contains(
                        q as u64,
                    ) implies self.saved(q) by {
                    assert(bitmap::bit(self.dirty@, q));
                    assert(written.changed(q));
                    assert(written.saved(q));
                }
            }
            assert(self.bytes() =~= written.bytes());
            assert(self.wf());
            assert forall|q: int| 0 <= q && q != p implies #[trigger] self.changed(q) == old(self).changed(q) by {
                assert(bitmap::bit(self.dirty@, q) == bitmap::bit(written.dirty@, q));
            }
            assert(!bitmap::bit(self.dirty@, p as int));
        }
        let ghost cleared = *self;
        let s = self.persist_meta_bit(p);
        proof {
            assert forall|q: int| 0 <= q && q != p implies #[trigger] self.changed(q) == old(self).changed(q) by {
                assert(cleared.changed(q) == old(self).changed(q));
            }
            assert(!self.changed(p as int) && self.here(p as int)) by {
                assert(!cleared.changed(p as int));
            }
            self.lemma_tidy_but(*old(self), p);
            if s is Ok {
                self.lemma_persisted(*old(self), cleared, p);
            }
        }
        s
    }

    /// Write the dirty page `p` to the inner backend and mark it clean.
    #[verifier::rlimit(40)]
    fn flush_page(&mut self, p: u64) -> (r: Result<(), BackendError>)
        requires
            old(self).wf(),
            p < old(self).num_pages,
        ensures
            final(self).ticks() <= old(self).ticks() + 1,
            final(self).wf(),
            final(self).bytes() == old(self).bytes(),
            final(self).page_size == old(self).page_size,
            final(self).dev_size == old(self).dev_size,
            final(self).num_pages == old(self).num_pages,
            final(self).unsaved@.subset_of(old(self).unsaved@),
            old(self).faithful() ==> final(self).faithful(),
            final(self).grew(*old(self)),
            backend::drifted(
                final(self).inner,
                old(self).inner,
                old(self).bytes(),
                old(self).bytes(),
            ),
            r is Err && old(self).even() ==> final(self).store_faults()
                > old(self).store_faults(),
            r is Ok && old(self).changed(p as int) ==> final(self).inner.requests()
                == old(self).inner.requests().push(old(self).write_back(p as int)),
            r is Ok && old(self).changed(p as int) && old(self).index is Some ==> final(self).shown(p),
            forall|q: u64| old(self).shown(q) ==> #[trigger] final(self).shown(q),
            final(self).inner.bytes().len() == old(self).inner.bytes().len(),
            r is Ok ==> !final(self).changed(p as int),
            r is Ok && old(self).filed() ==> final(self).filed(),
            forall|q: int| 0 <= q && q != p ==> #[trigger] final(self).changed(q) == old(self).changed(q),
            !old(self).changed(p as int) ==> r is Ok && *final(self) == *old(self),
    {
        if !bitmap::bit_get(&self.dirty, p) {
            return Ok(());
        }
        let len = self.page_len(p);
        match self.send_page(p) {
            Ok(()) => {},
            Err(e) => {
                return Err(e);
            },
        }
        let ghost sent = *self;
        let marked = self.mark_clean(p);
        let ghost cleaned = *self;
        proof {
            assert forall|q: int| 0 <= q && q != p implies #[trigger] self.changed(q) == old(self).changed(q) by {
                assert(sent.changed(q) == old(self).changed(q));
            }
        }
        match marked {
            Ok(()) => {},
            Err(e) => {
                return Err(e);
            },
        }
        if self.budget.is_some() && self.lru.ticks() < u64::MAX {
            let _over: u64 = self.book(p, true);
        }
        let ghost touched = *self;
        self.announce(p, len);
        proof {
            assert forall|q: int| 0 <= q && q != p implies #[trigger] self.changed(q) == old(self).changed(q) by {
                assert(touched.changed(q) == cleaned.changed(q));
                assert(cleaned.changed(q) == old(self).changed(q));
            }
        }
        Ok(())
    }

    /// With no dirty page, the inner backend holds every byte.
    proof fn lemma_clean_is_inner(&self)
        requires
            self.wf(),
            forall|p: int| 0 <= p < self.num_pages ==> !#[trigger] self.changed(p),
        ensures
            self.bytes() == backend::prefix(self.inner.bytes(), self.dev_size as int),
    {
        lemma_page_count(self.dev_size as int, self.ps());
        assert forall|i: int| 0 <= i < self.dev_size implies #[trigger] self.byte_at(i)
            == self.inner.bytes()[i] by {
            self.lemma_page_bytes(0, i);
            assert(!self.changed(i / self.ps()));
            if self.here(i / self.ps()) {
                assert(self.data.bytes()[i] == self.inner.bytes()[i]);
            }
        }
        assert(self.bytes() =~= backend::prefix(self.inner.bytes(), self.dev_size as int));
    }

    /// After a change of `[offset, offset + len)`, complete if `done`, the pages of
    /// that range may be dirty besides those that were, and all are if it is
    /// complete.
    pub open spec fn dirtied(&self, o: Self, offset: int, len: int, done: bool) -> bool {
        forall|p: int|
            0 <= p ==> {
                &&& #[trigger] self.changed(p) ==> o.changed(p) || pages::covers(
                    o.page_bytes() as int,
                    offset,
                    len,
                    p,
                )
                &&& o.changed(p) ==> self.changed(p)
                &&& done && pages::covers(o.page_bytes() as int, offset, len, p) ==> self.changed(p)
            }
    }

    /// Only pages of `[offset, offset + len)` have come into the data file since `o`.
    pub open spec fn loads(&self, o: Self, offset: int, len: int) -> bool {
        forall|p: int|
            0 <= p && #[trigger] self.here(p) ==> o.here(p) || pages::covers(
                o.page_bytes() as int,
                offset,
                len,
                p,
            )
    }

    /// Every page of `[offset, offset + len)` lies in that range as a whole, or is in the
    /// data file and cannot be evicted meanwhile: a change needs no other byte of it.
    pub open spec fn overwrites(&self, offset: int, len: int) -> bool {
        forall|p: int| #[trigger]
            pages::covers(self.page_bytes() as int, offset, len, p) ==> self.here(p)
                && !self.evicts() || offset <= p * self.page_bytes() && p * self.page_bytes() + self.page_bytes() <= offset + len
    }

    /// Every page of `[offset, offset + len)` that is dirty has been saved.
    pub open spec fn safe(&self, offset: int, len: int) -> bool {
        forall|p: u64|
            pages::covers(self.page_bytes() as int, offset, len, p as int)
                ==> !(#[trigger] self.unsaved().contains(p))
    }

    /// Write `piece` into page `p` at `at`, bringing the rest of the page into the
    /// data file first where the piece is not a whole page.
    #[verifier::rlimit(40)]
    fn put_piece(&mut self, p: u64, at: u64, piece: &Vec<u8>) -> (r: Result<(), BackendError>)
        requires
            old(self).wf(),
            p < old(self).num_pages,
            piece@.len() > 0,
            at + piece@.len() <= old(self).len_of(p as int),
            at % 512 == 0,
            piece@.len() % 512 == 0,
        ensures
            forall|q: int|
                0 <= q && #[trigger] final(self).here(q) ==> old(self).here(q) || q == p,
            old(self).here(p as int) || piece@.len() == old(self).page_size ==> final(self).inner
                == old(self).inner,
            !old(self).evicts() ==> forall|q: int|
                0 <= q && #[trigger] old(self).here(q) ==> final(self).here(q),
            final(self).ticks() <= old(self).ticks() + 4,
            final(self).wf(),
            final(self).durable() == old(self).durable(),
            old(self).faithful() ==> final(self).faithful(),
            final(self).page_size == old(self).page_size,
            final(self).dev_size == old(self).dev_size,
            final(self).num_pages == old(self).num_pages,
            final(self).grows(*old(self)),
            r is Err && old(self).even() ==> final(self).store_faults() > old(self).store_faults() || final(self).spent()
                && r == Err::<(), BackendError>(BackendError::ClockExhausted),
            r is Ok ==> final(self).bytes() == backend::splice(
                old(self).bytes(),
                p * old(self).page_size + at,
                piece@,
            ) && final(self).changed(p as int) && final(self).unsaved@.subset_of(old(self).unsaved@)
                && !final(self).unsaved@.contains(p),
            r is Ok && old(self).bounded() ==> final(self).bounded() && final(self).relieved(*old(self)),
            r is Err ==> backend::torn(
                final(self).bytes(),
                old(self).bytes(),
                backend::splice(old(self).bytes(), p * old(self).page_size + at, piece@),
            ),
            forall|q: int| 0 <= q && q != p ==> #[trigger] final(self).changed(q) == old(self).changed(q),
            old(self).changed(p as int) ==> final(self).changed(p as int),
    {
        proof {
            self.lemma_same_books(*old(self));
        }
        if piece.len() as u64 != self.page_size {
            let e = self.ensure_page(p);
            assert(forall|q: int| #[trigger] self.changed(q) == old(self).changed(q));
            match e {
                Ok(()) => {},
                Err(e) => {
                    return Err(e);
                },
            }
        }
        let ghost loaded = *self;
        let r = self.dirty_page_region(p, at, piece);
        proof {
            if r is Ok && old(self).bounded() {
                self.lemma_relieved(loaded, *old(self));
            }
        }
        assert forall|q: int| 0 <= q && q != p implies #[trigger] self.changed(q) == old(self).changed(q) by {
            assert(loaded.changed(q) == old(self).changed(q));
        }
        assert(loaded.changed(p as int) == old(self).changed(p as int));
        assert forall|q: int| 0 <= q && #[trigger] self.here(q) implies old(self).here(q) || q == p by {
            if q != p {
                assert(loaded.here(q));
            }
        }
        r
    }

    /// The dirty pages after one more page of a change of `[offset, offset + len)`,
    /// of which `pos` bytes were done and `chunk` more lie in that page.
    proof fn lemma_one_more_page(
        &self,
        o: Self,
        start: Self,
        offset: int,
        pos: int,
        chunk: int,
        len: int,
        done: bool,
    )
        requires
            o.page_size > 0,
            0 <= offset,
            0 <= pos < pos + chunk <= len,
            (offset + pos) % o.ps() + chunk <= o.ps(),
            start.dirtied(o, offset, pos, true),
            forall|q: int|
                0 <= q && q != (offset + pos) / o.ps() ==> #[trigger] self.changed(q) == start.changed(q),
            start.changed((offset + pos) / o.ps()) ==> self.changed((offset + pos) / o.ps()),
            done ==> self.changed((offset + pos) / o.ps()),
        ensures
            done ==> self.dirtied(o, offset, pos + chunk, true),
            self.dirtied(o, offset, len, false),
    {
        let ps = o.ps();
        let p = (offset + pos) / ps;
        pages::lemma_next_page(ps, offset, pos, chunk);
        pages::lemma_next_page(ps, offset, pos, len - pos);
        assert forall|q: int| 0 <= q implies {
            &&& #[trigger] self.changed(q) ==> o.changed(q) || pages::covers(ps, offset, len, q)
            &&& self.changed(q) ==> o.changed(q) || pages::covers(ps, offset, pos + chunk, q)
            &&& o.changed(q) ==> self.changed(q)
            &&& done && pages::covers(ps, offset, pos + chunk, q) ==> self.changed(q)
        } by {
            assert(start.changed(q) ==> o.changed(q) || pages::covers(ps, offset, pos, q));
        }
    }

    /// `self` is `o` after the first `pos` bytes of a change of `offset` on to `all`.
    #[verifier::opaque]
    spec fn partway(&self, o: Self, offset: int, pos: int, all: Seq<u8>) -> bool {
        &&& o.wf()
        &&& self.wf()
        &&& self.durable() == o.durable()
        &&& o.faithful() ==> self.faithful()
        &&& self.grows(o)
        &&& self.page_size == o.page_size
        &&& self.dev_size == o.dev_size
        &&& self.num_pages == o.num_pages
        &&& self.lru.clock() <= o.lru.clock() + 4 * pos
        &&& pos == 0 || pos == all.len() || (offset + pos) % o.ps() == 0
        &&& o.overwrites(offset, all.len() as int) ==> self.inner == o.inner
        &&& self.loads(o, offset, pos)
        &&& !o.evicts() ==> forall|q: int| 0 <= q && #[trigger] o.here(q) ==> self.here(q)
        &&& offset + all.len() <= self.dev_size
        &&& self.bytes() == backend::splice(o.bytes(), offset, all.take(pos))
        &&& self.unsaved@.subset_of(o.unsaved@)
        &&& self.safe(offset, pos)
        &&& o.bounded() ==> self.bounded() && self.relieved(o)
        &&& self.dirtied(o, offset, pos, true)
    }

    /// In a change that needs no other byte, the next piece is a whole page unless its
    /// page is in the data file to stay.
    proof fn lemma_whole_piece(&self, offset: int, len: int, pos: int)
        requires
            self.page_size > 0,
            0 <= offset,
            0 <= pos < len,
            pos == 0 || (offset + pos) % self.ps() == 0,
        ensures
            self.overwrites(offset, len) && (self.evicts() || !self.here((offset + pos) / self.ps()))
                ==> pages::piece(self.ps(), offset, len, pos) == self.ps(),
    {
        let ps = self.ps();
        let q = (offset + pos) / ps;
        pages::lemma_split(ps, offset + pos);
        pages::lemma_next_page(ps, offset, pos, len - pos);
        if self.overwrites(offset, len) && (self.evicts() || !self.here(q)) {
            assert(pages::covers(self.page_bytes() as int, offset, len, q));
            assert(offset <= q * ps && q * ps + ps <= offset + len);
        }
    }

    /// The pages in the data file after one more page of a change.
    proof fn lemma_loaded(&self, o: Self, start: Self, offset: int, len: int, pos: int, chunk: int)
        requires
            o.page_size > 0,
            start.loads(o, offset, pos),
            0 <= offset,
            0 <= pos < pos + chunk <= len,
            (offset + pos) % o.ps() + chunk <= o.ps(),
            forall|q: int|
                0 <= q && #[trigger] self.here(q) ==> start.here(q) || q == (offset + pos) / o.ps(),
            !o.evicts() ==> forall|q: int| 0 <= q && #[trigger] o.here(q) ==> start.here(q),
            !o.evicts() ==> forall|q: int| 0 <= q && #[trigger] start.here(q) ==> self.here(q),
        ensures
            self.loads(o, offset, pos + chunk),
            self.loads(o, offset, len),
            !o.evicts() ==> forall|q: int| 0 <= q && #[trigger] o.here(q) ==> self.here(q),
    {
        let ps = o.ps();
        pages::lemma_next_page(ps, offset, pos, chunk);
        pages::lemma_next_page(ps, offset, pos, len - pos);
        assert forall|q: int| 0 <= q && #[trigger] self.here(q) implies o.here(q) || pages::covers(
            ps,
            offset,
            pos + chunk,
            q,
        ) && pages::covers(ps, offset, len, q) by {
            if q != (offset + pos) / ps {
                assert(start.here(q));
            }
        }
        if !o.evicts() {
            assert forall|q: int| 0 <= q && #[trigger] o.here(q) implies self.here(q) by {
                assert(start.here(q));
            }
        }
    }

    /// Write the next piece of `src`, or of zeros, over `[offset, offset + len)`, of
    /// which `pos` bytes are done, up to the end of its page, and return the piece's
    /// length.
    #[verifier::rlimit(40)]
    fn put_next(
        &mut self,
        offset: u64,
        len: u64,
        pos: u64,
        src: Option<&Vec<u8>>,
        Ghost(o): Ghost<Self>,
    ) -> (r: Result<u64, BackendError>)
        requires
            pos < len,
            src matches Some(v) ==> v@.len() == len,
            old(self).partway(o, offset as int, pos as int, buffered::contents(src, len)),
            buffered::range_aligned(offset, len),
            pos % 512 == 0,
        ensures
            r matches Ok(n) ==> {
                &&& 0 < n <= len - pos
                &&& (pos + n) % 512 == 0
                &&& final(self).partway(
                    o,
                    offset as int,
                    pos + n,
                    buffered::contents(src, len),
                )
            },
            r is Err ==> {
                &&& final(self).wf()
                &&& final(self).num_pages == o.num_pages
                &&& final(self).loads(o, offset as int, len as int)
                &&& final(self).lru.clock() <= o.lru.clock() + 4 * len
                &&& o.overwrites(offset as int, len as int) ==> final(self).inner == o.inner
                &&& final(self).durable() == o.durable()
                &&& o.faithful() ==> final(self).faithful()
                &&& final(self).grows(o)
                &&& backend::torn(
                    final(self).bytes(),
                    o.bytes(),
                    backend::splice(o.bytes(), offset as int, buffered::contents(src, len)),
                )
                &&& final(self).dirtied(o, offset as int, len as int, false)
            },
            r is Err && o.even() ==> final(self).store_faults() > o.store_faults() || final(self).spent() && r == Err::<
                u64,
                BackendError,
            >(BackendError::ClockExhausted),
    {
        let page_size: u64 = self.page_size;
        let ghost all = buffered::contents(src, len);
        let ghost goal = backend::splice(o.bytes(), offset as int, all);
        proof {
            reveal(FileCacheBackend::partway);
            pages::lemma_split(page_size as int, offset + pos);
            lemma_page_count(self.dev_size as int, page_size as int);
        }
        let chunk: u64 = next_piece(page_size, offset, len, pos);
        let at: u64 = offset + pos;
        let p: u64 = at / page_size;
        let in_page: u64 = at % page_size;
        assert((at as int / page_size as int) < self.num_pages);
        let ghost start = *self;
        assert(in_page % 512 == 0) by {
            pages::lemma_piece_aligned(page_size as int, at as int);
        }
        let piece = match src {
            Some(v) => {
                assert(v.len() == v@.len());
                pages::copy_range(v, pos as usize, (pos + chunk) as usize)
            },
            None => pages::zero_bytes(chunk as usize),
        };
        assert(piece@ =~= all.subrange(pos as int, pos + chunk));
        proof {
            o.lemma_whole_piece(offset as int, len as int, pos as int);
        }
        let d = self.put_piece(p, in_page, &piece);
        proof {
            pages::lemma_splice_grow(o.bytes(), offset as int, all, pos as int, chunk as int);
            self.lemma_one_more_page(
                o,
                start,
                offset as int,
                pos as int,
                chunk as int,
                len as int,
                d is Ok,
            );
            if d is Err {
                let before = start.bytes();
                let step = backend::splice(before, p * page_size + in_page, piece@);
                assert forall|i: int| 0 <= i < self.bytes().len() implies #[trigger] self.bytes()[i]
                    == o.bytes()[i] || self.bytes()[i] == goal[i] by {
                    assert(self.bytes()[i] == before[i] || self.bytes()[i] == step[i]);
                }
            }
        }
        proof {
            self.lemma_loaded(o, start, offset as int, len as int, pos as int, chunk as int);
        }
        match d {
            Ok(()) => {},
            Err(e) => {
                return Err(e);
            },
        }
        proof {
            if o.bounded() {
                self.lemma_relieved(start, o);
            }
            pages::lemma_next_page(page_size as int, offset as int, pos as int, chunk as int);
            assert forall|q: u64|
                pages::covers(page_size as int, offset as int, pos + chunk, q as int)
                implies !(#[trigger] self.unsaved().contains(q)) by {
                if q != p {
                    assert(!start.unsaved().contains(q));
                }
            }
        }
        Ok(chunk)
    }

    /// Write `src`, or zeros, over `[offset, offset + len)`, page by page.
    fn put(&mut self, offset: u64, len: u64, src: Option<&Vec<u8>>) -> (r: Result<(), BackendError>)
        requires
            old(self).wf(),
            len > 0,
            offset + len <= old(self).dev_size,
            buffered::range_aligned(offset, len),
            src matches Some(v) ==> v@.len() == len,
        ensures
            final(self).ticks() <= old(self).ticks() + 4 * len,
            final(self).wf(),
            final(self).num_pages == old(self).num_pages,
            final(self).loads(*old(self), offset as int, len as int),
            old(self).overwrites(offset as int, len as int) ==> final(self).inner == old(self).inner,
            final(self).durable() == old(self).durable(),
            old(self).faithful() ==> final(self).faithful(),
            final(self).grows(*old(self)),
            r is Err && old(self).even() ==> final(self).store_faults() > old(self).store_faults() || final(self).spent()
                && r == Err::<(), BackendError>(BackendError::ClockExhausted),
            r is Ok ==> final(self).bytes() == backend::splice(
                old(self).bytes(),
                offset as int,
                buffered::contents(src, len),
            ) && final(self).unsaved@.subset_of(old(self).unsaved@) && final(self).safe(
                offset as int,
                len as int,
            ),
            r is Ok && old(self).bounded() ==> final(self).bounded() && final(self).relieved(*old(self)),
            r is Err ==> backend::torn(
                final(self).bytes(),
                old(self).bytes(),
                backend::splice(old(self).bytes(), offset as int, buffered::contents(src, len)),
            ),
            final(self).dirtied(*old(self), offset as int, len as int, r is Ok),
    {
        let ghost all = buffered::contents(src, len);
        let mut pos: u64 = 0;
        proof {
            reveal(FileCacheBackend::partway);
            self.lemma_same_books(*old(self));
            assert(backend::splice(self.bytes(), offset as int, all.take(0)) =~= self.bytes());
        }
        while pos < len
            invariant
                pos <= len,
                src matches Some(v) ==> v@.len() == len,
                all == buffered::contents(src, len),
                buffered::range_aligned(offset, len),
                pos % 512 == 0,
                self.partway(*old(self), offset as int, pos as int, all),
            ensures
                pos == len,
                self.partway(*old(self), offset as int, pos as int, all),
            decreases len - pos,
        {
            match self.put_next(offset, len, pos, src, Ghost(*old(self))) {
                Ok(n) => {
                    pos = pos + n;
                },
                Err(e) => {
                    return Err(e);
                },
            }
        }
        assert(all.take(len as int) == all);
        Ok(())
    }

    /// The inner backend.
    pub fn inner(&self) -> (r: &B)
        ensures
            *r == self.store(),
    {
        &self.inner
    }

    /// The page index, if pages are shared.
    pub fn page_index(&self) -> (r: Option<&CacheIndex>)
        ensures
            r == self.sharing(),
    {
        self.index.as_ref()
    }

    /// The page index, if pages are shared.
    pub closed spec fn sharing(&self) -> Option<&CacheIndex> {
        match self.index {
            Some(x) => Some(&x),
            None => None,
        }
    }

    /// Close the cache and hand back the inner backend and the two files.
    pub fn into_parts(self) -> (r: (B, D, M))
        requires
            self.valid(),
        ensures
            r.0 == self.store(),
            r.1 == self.data_file(),
            r.2 == self.meta_file(),
            r.0.valid() && r.1.valid() && r.2.valid(),
            r.2.bytes().len() % 512 == 0,
            r.1.bytes().len() == self.bytes().len(),
            forall|i: int|
                0 <= i < self.bytes().len() && self.here(i / self.page_bytes() as int)
                    ==> #[trigger] r.1.bytes()[i] == self.bytes()[i],
    {
        proof {
            assert forall|i: int|
                0 <= i < self.bytes().len() && self.here(i / self.page_bytes() as int) implies #[trigger] self.data.bytes()[i]
                == self.bytes()[i] by {
                assert(self.bytes()[i] == self.byte_at(i));
            }
        }
        (self.inner, self.data, self.meta)
    }

    /// Number of dirty pages.
    pub fn dirty_count(&self) -> (r: u64)
        requires
            self.valid(),
        ensures
            r == self.count_dirty(self.page_total() as int),
    {
        let mut c: u64 = 0;
        let mut i: u64 = 0;
        while i < self.num_pages
            invariant
                i <= self.num_pages,
                c <= i,
                c == self.count_dirty(i as int),
            decreases self.num_pages - i,
        {
            if bitmap::bit_get(&self.dirty, i) {
                c = c + 1;
            }
            i = i + 1;
        }
        c
    }

    /// Number of pages in the data file.
    pub fn present_count(&self) -> (r: u64)
        requires
            self.valid(),
        ensures
            r == self.count_here(self.page_total() as int),
    {
        let mut c: u64 = 0;
        let mut i: u64 = 0;
        while i < self.num_pages
            invariant
                i <= self.num_pages,
                c <= i,
                c == self.count_here(i as int),
            decreases self.num_pages - i,
        {
            if bitmap::bit_get(&self.present, i) {
                c = c + 1;
            }
            i = i + 1;
        }
        c
    }

    /// How many of the first `n` pages are dirty.
    pub open spec fn count_dirty(&self, n: int) -> int
        decreases n,
    {
        if n <= 0 {
            0
        } else {
            self.count_dirty(n - 1) + if self.changed(n - 1) {
                1int
            } else {
                0int
            }
        }
    }

    /// How many of the first `n` pages are in the data file.
    pub open spec fn count_here(&self, n: int) -> int
        decreases n,
    {
        if n <= 0 {
            0
        } else {
            self.count_here(n - 1) + if self.here(n - 1) {
                1int
            } else {
                0int
            }
        }
    }

    /// Forget every resident page in the recency order, the budget and the index.
    fn forget_accounts(&mut self)
        ensures
            final(self).inner == old(self).inner,
            final(self).data == old(self).data,
            final(self).meta == old(self).meta,
            final(self).page_size == old(self).page_size,
            final(self).dev_size == old(self).dev_size,
            final(self).num_pages == old(self).num_pages,
            final(self).head == old(self).head,
            final(self).present == old(self).present,
            final(self).dirty == old(self).dirty,
            final(self).unsaved == old(self).unsaved,
            final(self).budget is Some == old(self).budget is Some,
            final(self).lru.wf(),
            final(self).lru.clock() == 0,
            final(self).lru.clean() == Set::<u64>::empty(),
            final(self).lru.stamps() == Map::<u64, u64>::empty(),
            final(self).resident == 0,
            final(self).faithful@,
            final(self).counts(*old(self)),
            old(self).budget is Some ==> final(self).budget->0.settled(old(self).budget->0, 0),
            final(self).index is Some == old(self).index is Some,
            forall|p: u64| !#[trigger] shown_in(final(self).index, p),
    {
        self.resident = 0;
        self.lru.clear();
        match &mut self.budget {
            Some(b) => {
                let _over: u64 = b.reset(0);
            },
            None => {},
        }
        match &mut self.index {
            Some(x) => {
                x.unpublish_all();
            },
            None => {},
        }
        self.faithful = Ghost(true);
        proof {
            if self.index is Some {
                self.index->0.lemma_withdrawn(old(self).index->0, None);
            }
            assert forall|p: u64| !#[trigger] shown_in(self.index, p) by {}
        }
    }

    /// Start over with an empty cache for a device of `size` bytes.
    fn reinit(&mut self, size: u64) -> (r: Result<(), BackendError>)
        requires
            old(self).inner.valid(),
            old(self).data.valid(),
            old(self).meta.valid(),
            0 < old(self).page_size <= usize::MAX,
            old(self).page_size % 512 == 0,
            size > 0,
            old(self).inner.bytes().len() >= size,
        ensures
            r is Ok ==> final(self).wf() && final(self).bytes() == backend::prefix(
                final(self).inner.bytes(),
                size as int,
            ),
            r is Ok ==> final(self).unsaved@ == Set::<u64>::empty(),
            r is Ok ==> final(self).dev_size == size,
            r is Ok ==> final(self).faithful@,
            r is Ok ==> forall|p: int|
                #![trigger final(self).here(p)]
                #![trigger final(self).changed(p)]
                !final(self).here(p) && !final(self).changed(p),
            final(self).inner == old(self).inner,
            final(self).page_size == old(self).page_size,
            r is Ok ==> final(self).seeded(old(self).budget, old(self).index),
            final(self).counts(*old(self)),
            r is Ok ==> final(self).filed() && final(self).pinned() && final(self).tidy(),
            r is Err && backend::fair_size(size) ==> final(self).store_faults()
                > old(self).store_faults(),
    {
        match self.data.create(size) {
            Ok(()) => {},
            Err(e) => {
                return Err(e);
            },
        }
        self.start_empty(size)
    }

    /// Take over a device of `size` bytes with no page in the cache, and store
    /// fresh metadata.
    fn start_empty(&mut self, size: u64) -> (r: Result<(), BackendError>)
        requires
            old(self).inner.valid(),
            old(self).data.valid(),
            old(self).meta.valid(),
            0 < old(self).page_size <= usize::MAX,
            old(self).page_size % 512 == 0,
            size > 0,
            old(self).inner.bytes().len() >= size,
            old(self).data.bytes().len() == size,
        ensures
            r is Ok ==> final(self).wf() && final(self).bytes() == backend::prefix(
                final(self).inner.bytes(),
                size as int,
            ),
            r is Ok ==> final(self).unsaved@ == Set::<u64>::empty(),
            r is Ok ==> final(self).dev_size == size,
            r is Ok ==> final(self).faithful@,
            r is Ok ==> forall|p: int|
                #![trigger final(self).here(p)]
                #![trigger final(self).changed(p)]
                !final(self).here(p) && !final(self).changed(p),
            final(self).inner == old(self).inner,
            final(self).page_size == old(self).page_size,
            final(self).counts(*old(self)),
            r is Ok ==> final(self).filed() && final(self).pinned() && final(self).tidy(),
            r is Ok ==> final(self).lru.clock() == 0,
            r is Err && size <= usize::MAX ==> final(self).meta.faults() > old(self).meta.faults(),
            final(self).data == old(self).data,
            final(self).budget is Some == old(self).budget is Some,
            r is Ok ==> final(self).seeded(old(self).budget, old(self).index),
    {
        proof {
            lemma_page_count(size as int, self.page_size as int);
        }
        let n: u64 = pages_for(size, self.page_size);
        let bm: u64 = bitmap::bitmap_bytes(n);
        if bm > usize::MAX as u64 {
            return Err(BackendError::TooLarge { size });
        }
        self.dev_size = size;
        self.num_pages = n;
        self.head = cache_meta::header_bytes(self.page_size, size, n);
        self.present = pages::zero_bytes(bm as usize);
        self.dirty = pages::zero_bytes(bm as usize);
        self.unsaved = Ghost(Set::empty());
        self.forget_accounts();
        let total: u64 = 64 + 2 * bm;
        let padded: u64 = (total + 511) / 512 * 512;
        proof {
            bitmap::lemma_no_bits(self.present@);
            bitmap::lemma_no_bits(self.dirty@);
        }
        match self.meta.create(padded) {
            Ok(()) => {},
            Err(e) => {
                return Err(e);
            },
        }
        let whole = cache_meta::image_part(&self.head, &self.present, &self.dirty, 0, padded);
        match self.meta.write(0, &whole) {
            Ok(()) => {},
            Err(e) => {
                return Err(e);
            },
        }
        match self.meta.flush() {
            Ok(()) => {},
            Err(e) => {
                return Err(e);
            },
        }
        proof {
            lemma_booked_none(self.dev_size as int, self.ps(), self.num_pages as int);
            assert(self.lru.stamps().dom() =~= Set::<u64>::empty());
            assert forall|p: u64| !#[trigger] self.shown(p) by {
                assert(!shown_in(self.index, p));
            }
            assert(self.bytes() =~= backend::prefix(self.inner.bytes(), size as int));
            let m = self.meta.bytes();
            cache_meta::lemma_header(self.page_size, self.dev_size, self.num_pages);
            assert forall|i: int| 0 <= i < 64 implies #[trigger] m[i] == self.head@[i] by {
                assert(whole@[i] == self.img()[i]);
            }
            assert(m.subrange(0, 8) =~= self.head@.subrange(0, 8));
            assert(m.subrange(8, 12) =~= self.head@.subrange(8, 12));
            assert(m.subrange(16, 24) =~= self.head@.subrange(16, 24));
            assert(m.subrange(24, 32) =~= self.head@.subrange(24, 32));
            reveal(books_match);
            reveal(holds_bits);
            assert(self.img().len() == whole@.len());
            assert forall|i: int| 0 <= i < self.present@.len() implies m[64 + i]
                == #[trigger] self.present@[i] by {
                assert(whole@[64 + i] == self.img()[64 + i]);
            }
            assert forall|i: int| 0 <= i < self.dirty@.len() implies m[64 + self.present@.len() + i]
                == #[trigger] self.dirty@[i] by {
                assert(whole@[64 + self.present@.len() + i] == self.img()[64 + self.present@.len()
                    + i]);
            }
            self.lemma_settled_is_pinned();
        }
        Ok(())
    }

    /// The cache just opened on these files: with the pages that fitting metadata
    /// names, valid if those are coherent, or empty and valid.
    ///
    /// If `kept`, what was found in the two files is on durable storage, and the dirty
    /// pages among it count as saved.
    pub open spec fn opened_as(
        &self,
        recovered: u64,
        reason: Option<Reinit>,
        kept: bool,
        inner: Seq<u8>,
        data: Seq<u8>,
        meta: Seq<u8>,
        page_size: u64,
        dev_size: u64,
    ) -> bool {
        &&& self.page_bytes() == page_size
        &&& self.page_total() == page_count(dev_size as int, page_size as int)
        &&& kept ==> self.unsaved() == Set::<u64>::empty()
        &&& forall|p: u64| #[trigger] self.unsaved().contains(p) ==> self.changed(p as int)
        &&& self.bytes().len() == dev_size
        &&& forall|i: int|
            0 <= i < dev_size ==> #[trigger] self.bytes()[i] == (if self.here(i / page_size as int) {
                data[i]
            } else {
                inner[i]
            })
        &&& match cache_meta::stored(meta, page_size, dev_size, self.page_total()) {
            Ok((present, dirty)) => {
                &&& reason is None
                &&& recovered == bitmap::count(dirty, self.page_total() as int)
                &&& self.has_bits(present, dirty)
                &&& coherent(data, inner, present, dirty, page_size as int, dev_size as int)
                    ==> self.valid()
            },
            Err(why) => {
                &&& reason == Some(why)
                &&& recovered == 0
                &&& self.valid()
                &&& self.bytes() == backend::prefix(inner, dev_size as int)
                &&& self.has_no_pages()
            },
        }
    }

    /// The resident pages are on account in `budget`, and the clean ones published in
    /// `index`.
    pub open spec fn seeded(&self, budget: Option<CacheBudget>, index: Option<CacheIndex>) -> bool {
        &&& self.budgeted() == budget is Some
        &&& budget matches Some(b) ==> {
            &&& self.allowance() matches Some(c) && c.settled(b, self.resident_total())
            &&& forall|p: u64| #[trigger]
                self.accounted().contains(p) == (p < self.page_total() && self.here(p as int))
        }
        &&& self.sharing() is Some == index is Some
        &&& index matches Some(x) ==> forall|p: u64|
            {
                &&& p < self.page_total() && self.here(p as int) && !self.changed(p as int)
                    ==> #[trigger] self.shown(p)
                &&& self.shown(p) ==> x.published(p) || p < self.page_total() && self.here(p as int)
                    && !self.changed(p as int)
            }
    }

    /// The pages are those of the two bitmaps.
    pub open spec fn has_bits(&self, present: Seq<u8>, dirty: Seq<u8>) -> bool {
        &&& forall|p: int| 0 <= p ==> #[trigger] self.here(p) == bitmap::bit(present, p)
        &&& forall|p: int| 0 <= p ==> #[trigger] self.changed(p) == bitmap::bit(dirty, p)
    }

    /// No page is in the data file.
    pub open spec fn has_no_pages(&self) -> bool {
        forall|p: int|
                #![trigger self.here(p)]
                #![trigger self.changed(p)]
                !self.here(p) && !self.changed(p)
    }

    /// Open a cache of pages of `page_size` bytes over the first `dev_size` bytes of
    /// `inner`, with the data file `data` (as long as the device) and the metadata file
    /// `meta`.
    ///
    /// Metadata that does not fit the page size and device size is replaced by an
    /// empty cache, for the reason given. Returns the cache, the number of dirty
    /// pages found and that reason. On values that are in order only the metadata
    /// file can make this fail; what was passed in comes back then.
    #[verifier::rlimit(40)]
    pub fn open(
        inner: B,
        data: D,
        meta: M,
        page_size: u64,
        dev_size: u64,
        budget: Option<CacheBudget>,
        index: Option<CacheIndex>,
        eviction_supported: bool,
    ) -> (r: Result<(Self, u64, Option<Reinit>), OpenFailed<B, D, M>>)
        requires
            inner.valid(),
            data.valid(),
            meta.valid(),
            inner.bytes().len() >= dev_size,
            data.bytes().len() == dev_size,
        ensures
            page_size == 0 || page_size % 512 != 0 ==> (r matches Err(f) && (
            f.error matches BackendError::BadConfig { name, value } && name@ == "page_size"@ && value
                == page_size)),
            page_size > 0 && page_size % 512 == 0 && dev_size == 0 ==> (r matches Err(f) && (
            f.error matches BackendError::BadConfig { name, value } && name@ == "dev_size"@ && value
                == 0)),
            page_size % 512 == 0 && page_size > usize::MAX && dev_size > 0 ==> (r matches Err(f)
                && f.error == (BackendError::TooLarge { size: page_size })),
            r matches Err(f) ==> f.inner == inner && f.data == data,
            r matches Err(f) ==> 0 < page_size <= usize::MAX && page_size % 512 == 0 && 0 < dev_size
                <= usize::MAX && (meta.bytes().len() % 512 == 0 || meta.bytes().len() + 512 <= usize::MAX)
                ==> f.meta.faults()
                > meta.faults(),
            r matches Ok((cache, _, _)) ==> (index is Some ==> forall|p: u64|
                !#[trigger] index->0.published(p)) ==> cache.faithful(),
            r matches Ok((cache, _, _)) ==> cache.seeded(budget, index) && cache.requests()
                == Seq::<Request>::empty(),
            r matches Ok((cache, _, reason)) ==> cache.filed() && cache.tidy() && (reason is Some
                || backend::settled(data) && backend::settled(meta) ==> cache.pinned()),
            r matches Ok((cache, _, _)) ==> cache.ticks() <= cache.page_total(),
            r matches Ok((cache, _, _)) ==> cache.store() == inner && cache.data_file() == data
                && cache.evicts() == (budget is Some && eviction_supported),
            r matches Ok((cache, recovered, reason)) ==> cache.opened_as(
                recovered,
                reason,
                backend::settled(data) && backend::settled(meta),
                inner.bytes(),
                data.bytes(),
                meta.bytes(),
                page_size,
                dev_size,
            ),
    {
        if page_size == 0 || page_size % 512 != 0 {
            let error = BackendError::BadConfig { name: "page_size".to_owned(), value: page_size };
            return Err(OpenFailed { error, inner, data, meta });
        }
        if dev_size == 0 {
            let error = BackendError::BadConfig { name: "dev_size".to_owned(), value: 0 };
            return Err(OpenFailed { error, inner, data, meta });
        }
        if page_size > usize::MAX as u64 {
            let error = BackendError::TooLarge { size: page_size };
            return Err(OpenFailed { error, inner, data, meta });
        }
        proof {
            lemma_page_count(dev_size as int, page_size as int);
        }
        let n: u64 = pages_for(dev_size, page_size);
        let ghost meta_bytes = meta.bytes();
        let ghost kept = backend::settled(data) && backend::settled(meta);
        let mut meta = meta;
        let text = match whole_blocks(&mut meta) {
            Ok(text) => text,
            Err(error) => {
                return Err(OpenFailed { error, inner, data, meta });
            },
        };
        let loaded = cache_meta::load_meta(&text, page_size, dev_size, n);
        let ghost fresh = index is Some ==> forall|p: u64| !#[trigger] index->0.published(p);
        let mut cache = FileCacheBackend {
            inner,
            data,
            meta,
            page_size,
            dev_size,
            num_pages: n,
            head: cache_meta::header_bytes(page_size, dev_size, n),
            present: Vec::new(),
            dirty: Vec::new(),
            resident: 0,
            lru: Lru::new(),
            budget,
            index,
            eviction_supported,
            unsaved: Ghost(Set::empty()),
            faithful: Ghost(fresh),
            declined: Ghost(0),
            asked: Ghost(Seq::empty()),
        };
        match loaded {
            Err(why) => match cache.start_empty(dev_size) {
                Ok(()) => {
                    proof {
                        assert(cache.has_no_pages());
                        assert forall|i: int| 0 <= i < dev_size implies #[trigger] cache.bytes()[i]
                            == (if cache.here(i / page_size as int) {
                            data.bytes()[i]
                        } else {
                            inner.bytes()[i]
                        }) by {
                            assert(!cache.here(i / page_size as int));
                        }
                        assert(cache.opened_as(
                            0,
                            Some(why),
                            kept,
                            inner.bytes(),
                            data.bytes(),
                            meta_bytes,
                            page_size,
                            dev_size,
                        ));
                    }
                    Ok((cache, 0, Some(why)))
                },
                Err(error) => Err(
                    OpenFailed { error, inner: cache.inner, data: cache.data, meta: cache.meta },
                ),
            },
            Ok((present, dirty)) => {
                let recovered = bitmap::count_bits(&dirty, n);
                let ghost p0 = present@;
                let ghost d0 = dirty@;
                cache.present = present;
                cache.dirty = dirty;
                let ghost doubtful = Set::new(|p: u64| !kept && cache.changed(p as int));
                cache.unsaved = Ghost(doubtful);
                let ghost sound = coherent(
                    data.bytes(),
                    inner.bytes(),
                    present@,
                    dirty@,
                    page_size as int,
                    dev_size as int,
                );
                proof {
                    cache.lemma_recovered(sound, kept, meta_bytes);
                    cache.lemma_found(kept, meta_bytes);
                    if kept {
                        assert(cache.unsaved@ =~= Set::<u64>::empty());
                    }
                }
                let ghost ready = cache;
                match cache.seed(Ghost(sound)) {
                    Ok(()) => {},
                    Err(error) => {
                        return Err(
                            OpenFailed {
                                error,
                                inner: cache.inner,
                                data: cache.data,
                                meta: cache.meta,
                            },
                        );
                    },
                }
                proof {
                    assert(cache_meta::stored(meta_bytes, page_size, dev_size, cache.page_total()) == Ok::<
                        (Seq<u8>, Seq<u8>),
                        Reinit,
                    >((p0, d0)));
                    assert(cache.has_bits(p0, d0));
                    assert forall|p: u64| #[trigger] cache.unsaved().contains(p) implies cache.changed(
                        p as int,
                    ) by {
                        assert(doubtful.contains(p));
                        assert(ready.changed(p as int));
                    }
                    assert forall|i: int| 0 <= i < dev_size implies #[trigger] cache.bytes()[i] == (
                    if cache.here(i / page_size as int) {
                        data.bytes()[i]
                    } else {
                        inner.bytes()[i]
                    }) by {
                        assert(cache.bytes()[i] == cache.byte_at(i));
                    }
                    assert(cache.opened_as(
                        recovered,
                        None,
                        kept,
                        inner.bytes(),
                        data.bytes(),
                        meta_bytes,
                        page_size,
                        dev_size,
                    ));
                }
                Ok((cache, recovered, None))
            },
        }
    }

    /// The metadata file has the bitmaps that were found in it.
    proof fn lemma_found(&self, kept: bool, found: Seq<u8>)
        requires
            self.head@ == cache_meta::header(self.page_size, self.dev_size, self.num_pages),
            self.meta.bytes().len() >= found.len(),
            self.meta.bytes().take(found.len() as int) == found,
            cache_meta::stored(found, self.page_size, self.dev_size, self.num_pages) == Ok::<
                (Seq<u8>, Seq<u8>),
                Reinit,
            >((self.present@, self.dirty@)),
            kept ==> backend::settled(self.meta),
        ensures
            self.filed(),
            kept ==> self.pinned(),
    {
        reveal(holds_bits);
        reveal(holds_firmly);
        let m = self.meta.bytes();
        let n = self.bm();
        let h = self.head@;
        assert forall|i: int| 0 <= i < found.len() implies #[trigger] m[i] == found[i] by {
            assert(m.take(found.len() as int)[i] == m[i]);
        }
        assert forall|i: int| 0 <= i < self.present@.len() implies m[64 + i]
            == #[trigger] self.present@[i] by {
            assert(found.subrange(64, 64 + n)[i] == found[64 + i]);
        }
        assert forall|i: int| 0 <= i < self.dirty@.len() implies m[64 + self.present@.len() + i]
            == #[trigger] self.dirty@[i] by {
            assert(found.subrange(64 + n, 64 + 2 * n)[i] == found[64 + n + i]);
        }
        cache_meta::lemma_header(self.page_size, self.dev_size, self.num_pages);
        wire::lemma_le_unique(found.subrange(8, 12));
        wire::lemma_le_unique(found.subrange(16, 24));
        wire::lemma_le_unique(found.subrange(24, 32));
        assert forall|i: int| 0 <= i < 12 || 16 <= i < 32 implies #[trigger] m[i] == h[i] by {
            if i < 8 {
                assert(found.subrange(0, 8)[i] == h.subrange(0, 8)[i]);
            } else if i < 12 {
                assert(found.subrange(8, 12)[i - 8] == h.subrange(8, 12)[i - 8]);
            } else if i < 24 {
                assert(found.subrange(16, 24)[i - 16] == h.subrange(16, 24)[i - 16]);
            } else {
                assert(found.subrange(24, 32)[i - 24] == h.subrange(24, 32)[i - 24]);
            }
        }
    }

    /// The cache that fitting metadata describes, before its pages are accounted.
    proof fn lemma_recovered(&self, sound: bool, kept: bool, found: Seq<u8>)
        requires
            self.inner.valid(),
            self.data.valid(),
            self.meta.valid(),
            0 < self.page_size <= usize::MAX,
            self.page_size % 512 == 0,
            self.dev_size > 0,
            self.num_pages == page_count(self.dev_size as int, self.ps()),
            self.head@ == cache_meta::header(self.page_size, self.dev_size, self.num_pages),
            self.inner.bytes().len() >= self.dev_size,
            self.data.bytes().len() == self.dev_size,
            self.meta.bytes().len() % 512 == 0,
            self.meta.bytes().len() >= found.len(),
            self.meta.bytes().take(found.len() as int) == found,
            cache_meta::stored(found, self.page_size, self.dev_size, self.num_pages) == Ok::<
                (Seq<u8>, Seq<u8>),
                Reinit,
            >((self.present@, self.dirty@)),
            self.lru.wf(),
            self.lru.stamps() == Map::<u64, u64>::empty(),
            self.lru.clean() == Set::<u64>::empty(),
            self.resident == 0,
            self.faithful@ ==> (self.index is Some ==> forall|p: u64|
                !#[trigger] self.index->0.published(p)),
            sound == coherent(
                self.data.bytes(),
                self.inner.bytes(),
                self.present@,
                self.dirty@,
                self.ps(),
                self.dev_size as int,
            ),
            kept ==> backend::settled(self.data) && backend::settled(self.meta),
            forall|p: u64| #[trigger]
                self.unsaved@.contains(p) == (!kept && bitmap::bit(self.dirty@, p as int)),
        ensures
            sound ==> self.wf(),
    {
        let m = self.meta.bytes();
        let n = self.bm();
        lemma_page_count(self.dev_size as int, self.ps());
        cache_meta::lemma_header(self.page_size, self.dev_size, self.num_pages);
        assert(found.len() >= 64 + 2 * n);
        assert(self.img().len() <= m.len());
        assert(m.subrange(0, 8) =~= found.subrange(0, 8));
        assert(m.subrange(8, 12) =~= found.subrange(8, 12));
        assert(m.subrange(16, 24) =~= found.subrange(16, 24));
        assert(m.subrange(24, 32) =~= found.subrange(24, 32));
        wire::lemma_le_unique(m.subrange(8, 12));
        wire::lemma_le_unique(m.subrange(16, 24));
        wire::lemma_le_unique(m.subrange(24, 32));
        if sound {
            lemma_booked_none(self.dev_size as int, self.ps(), self.num_pages as int);
            assert(self.lru.stamps().dom() =~= Set::<u64>::empty());
            assert(self.shape());
            assert(self.fits());
            self.lemma_fitting_head();
            assert(self.recorded()) by {
                assert forall|p: int|
                    0 <= p < self.num_pages && #[trigger] self.changed(p) && !self.unsaved@.contains(
                        p as u64,
                    ) implies self.saved(p) by {
                    assert(bitmap::bit(self.dirty@, p));
                    assert(bitmap::bit(self.present@, p));
                    assert(kept);
                    assert(m[64 + p / 8] == found.subrange(64, 64 + n)[p / 8]);
                    assert(m[64 + n + p / 8] == found.subrange(64 + n, 64 + 2 * n)[p / 8]);
                    assert(self.head_firm());
                    assert(self.bits_firm(p));
                    assert(self.data_firm(p));
                }
            }
        }
    }

    /// Account the recovered pages: recency in page order, the resident bytes, the
    /// balance, and the index entries of clean pages.
    fn seed(&mut self, Ghost(sound): Ghost<bool>) -> (r: Result<(), BackendError>)
        requires
            sound ==> old(self).wf(),
            old(self).num_pages == page_count(old(self).dev_size as int, old(self).ps()),
            old(self).dev_size > 0,
            old(self).page_size > 0,
            old(self).lru.wf(),
            old(self).lru.clean() == Set::<u64>::empty(),
            old(self).lru.stamps() == Map::<u64, u64>::empty(),
        ensures
            old(self).lru.clock() + old(self).num_pages <= u64::MAX ==> r is Ok,
            r is Err ==> r == Err::<(), BackendError>(BackendError::ClockExhausted),
            r is Ok ==> final(self).seeded(old(self).budget, old(self).index),
            sound ==> final(self).wf() && final(self).bytes() == old(self).bytes(),
            final(self).faithful == old(self).faithful,
            final(self).present == old(self).present,
            final(self).dirty == old(self).dirty,
            final(self).page_size == old(self).page_size,
            final(self).num_pages == old(self).num_pages,
            final(self).unsaved == old(self).unsaved,
            final(self).inner == old(self).inner,
            final(self).data == old(self).data,
            final(self).meta == old(self).meta,
            final(self).dev_size == old(self).dev_size,
            final(self).asked == old(self).asked,
            r is Ok ==> final(self).tidy(),
            final(self).lru.clock() <= old(self).lru.clock() + old(self).num_pages,
            final(self).head == old(self).head,
            final(self).eviction_supported == old(self).eviction_supported,
    {
        let n: u64 = self.num_pages;
        let mut p: u64 = 0;
        while p < n
            invariant
                p <= n,
                n == self.num_pages,
                n == page_count(self.dev_size as int, self.ps()),
                self.dev_size > 0,
                self.page_size > 0,
                sound ==> self.wf() && self.bytes() == old(self).bytes(),
                self.faithful == old(self).faithful,
                self.lru.wf(),
                self.budget == old(self).budget,
                self.lru.clock() <= old(self).lru.clock() + p,
                self.budget is Some ==> forall|q: u64| #[trigger]
                    self.lru.stamps().contains_key(q) == (q < p && self.here(q as int)),
                self.head == old(self).head,
                self.budget is Some ==> forall|q: u64| #[trigger]
                    self.lru.clean().contains(q) == (q < p && self.here(q as int) && !self.changed(
                        q as int,
                    )),
                self.index is Some == old(self).index is Some,
                old(self).index is Some ==> forall|q: u64|
                    {
                        &&& q < p && self.here(q as int) && !self.changed(q as int)
                            ==> #[trigger] shown_in(self.index, q)
                        &&& shown_in(self.index, q) ==> shown_in(old(self).index, q) || q < p
                            && self.here(q as int) && !self.changed(q as int)
                    },
                self.present == old(self).present,
                self.dirty == old(self).dirty,
                self.page_size == old(self).page_size,
                self.num_pages == old(self).num_pages,
                self.unsaved == old(self).unsaved,
                self.inner == old(self).inner,
                self.data == old(self).data,
                self.meta == old(self).meta,
                self.dev_size == old(self).dev_size,
                self.asked == old(self).asked,
                self.eviction_supported == old(self).eviction_supported,
            decreases n - p,
        {
            let ghost start = *self;
            if bitmap::bit_get(&self.present, p) {
                proof {
                    lemma_page_count(self.dev_size as int, self.ps());
                    pages::lemma_in_page(self.ps(), p as int, 0);
                    assert((p as int * self.ps()) < self.dev_size);
                }
                let clean = !bitmap::bit_get(&self.dirty, p);
                let rest: u64 = self.dev_size - p * self.page_size;
                let len: u64 = if rest < self.page_size {
                    rest
                } else {
                    self.page_size
                };
                if self.budget.is_some() {
                    if self.lru.ticks() == u64::MAX {
                        return Err(BackendError::ClockExhausted);
                    }
                    self.lru.touch(p, clean);
                    self.resident = self.resident.saturating_add(len);
                }
                match &mut self.index {
                    Some(x) => {
                        if clean {
                            x.publish(p, len);
                        }
                    },
                    None => {},
                }
                proof {
                    if self.index is Some && clean {
                        self.index->0.lemma_published(start.index->0, p, len);
                    }
                    assert forall|q: u64| #[trigger] shown_in(self.index, q) == (q == p && clean
                        && self.index is Some || shown_in(start.index, q)) by {}
                    if sound {
                        let held = start.lru.stamps().dom();
                        let size = self.dev_size as int;
                        if self.budget is Some {
                            assert(self.lru.stamps().dom() =~= held.insert(p));
                            lemma_booked_page(held, p, size, self.ps(), n as int);
                            lemma_booked_bound(held.insert(p), size, self.ps(), n as int);
                        }
                        assert forall|q: u64| self.budget is Some && #[trigger] self.lru.stamps().contains_key(q)
                            implies q < self.num_pages && self.here(q as int) by {
                            if q != p {
                                assert(start.lru.stamps().contains_key(q));
                                assert(start.here(q as int));
                            }
                        }
                        assert forall|q: u64| self.budget is Some && #[trigger] self.lru.clean().contains(q)
                            implies q < self.num_pages && self.here(q as int) && !self.changed(
                            q as int,
                        ) by {
                            if q != p {
                                assert(start.lru.clean().contains(q));
                                assert(start.here(q as int) && !start.changed(q as int));
                            }
                        }
                        Self::lemma_wf_same(start, *self);
                    }
                }
            }
            p = p + 1;
        }
        proof {
            reveal(books_match);
        }
        let ghost done = *self;
        let resident: u64 = self.resident;
        match &mut self.budget {
            Some(b) => {
                let _over: u64 = b.reset(resident);
            },
            None => {},
        }
        proof {
            if sound {
                assert forall|q: u64| self.budget is Some && #[trigger] self.lru.clean().contains(q)
                    implies q < self.num_pages && self.here(q as int) && !self.changed(q as int) by {
                    assert(done.lru.clean().contains(q));
                    assert(done.here(q as int) && !done.changed(q as int));
                }
                Self::lemma_wf_same(done, *self);
            }
        }
        Ok(())
    }

    /// The pages of a range lie between those of its first and last byte.
    proof fn lemma_span(&self, offset: int, len: int)
        requires
            self.page_size > 0,
            0 <= offset,
            0 < len,
        ensures
            forall|i: int|
                offset <= i < offset + len ==> offset / self.ps() <= #[trigger] (i
                    / self.page_bytes() as int) <= (offset + len - 1) / self.ps(),
    {
        assert forall|i: int| offset <= i < offset + len implies offset / self.ps() <= #[trigger] (i
            / self.page_bytes() as int) <= (offset + len - 1) / self.ps() by {
            vstd::arithmetic::div_mod::lemma_div_is_ordered(offset, i, self.ps());
            vstd::arithmetic::div_mod::lemma_div_is_ordered(i, offset + len - 1, self.ps());
        }
    }

    /// The requests that fetch those of the pages from `a` up to `b` that are not in the
    /// data file.
    pub open spec fn fetches(&self, a: int, b: int) -> Seq<Request>
        decreases b - a,
    {
        if b <= a {
            Seq::empty()
        } else if self.here(b - 1) {
            self.fetches(a, b - 1)
        } else {
            self.fetches(a, b - 1).push(self.fetch(b - 1))
        }
    }

    /// The requests that put those of the pages from `a` up to `b` into the data file that
    /// are not there.
    pub open spec fn keeps(&self, a: int, b: int) -> Seq<Request>
        decreases b - a,
    {
        if b <= a {
            Seq::empty()
        } else if self.here(b - 1) {
            self.keeps(a, b - 1)
        } else {
            self.keeps(a, b - 1).push(self.keep(b - 1))
        }
    }

    /// Each page of a range has some byte of it.
    proof fn lemma_some_byte(&self, offset: int, len: int, p: int)
        requires
            self.page_size > 0,
            0 <= offset,
            0 < len,
            offset / self.ps() <= p <= (offset + len - 1) / self.ps(),
        ensures
            exists|i: int|
                offset <= i < offset + len && #[trigger] (i / self.page_bytes() as int) == p,
    {
        let ps = self.ps();
        pages::lemma_split(ps, offset);
        pages::lemma_split(ps, offset + len - 1);
        let i = if p == offset / ps {
            offset
        } else {
            p * ps
        };
        pages::lemma_in_page(ps, p, 0);
        if p != offset / ps {
            pages::lemma_page_order(ps, offset / ps, p);
            if p < (offset + len - 1) / ps {
                pages::lemma_page_order(ps, p, (offset + len - 1) / ps);
            }
        }
        assert(offset <= i < offset + len && i / self.page_bytes() as int == p);
    }

    /// Make `[offset, offset + len)` resident as clean pages.
    #[verifier::rlimit(40)]
    pub fn prefetch(&mut self, offset: u64, len: u64) -> (r: Result<(), BackendError>)
        requires
            old(self).valid(),
        ensures
            final(self).ticks() <= old(self).ticks() + 2 * old(self).page_total(),
            final(self).undisturbed(*old(self)),
            final(self).orderly(*old(self)),
            final(self).valid(),
            final(self).bytes() == old(self).bytes(),
            final(self).durable() == old(self).durable(),
            old(self).faithful() ==> final(self).faithful(),
            forall|p: int| #[trigger] final(self).changed(p) == old(self).changed(p),
            len == 0 ==> r is Ok,
            final(self).loads(*old(self), offset as int, len as int),
            r is Ok && len > 0 && !old(self).evicts() ==> final(self).store().requests() == old(
                self,
            ).store().requests() + old(self).fetches(
                offset as int / old(self).page_bytes() as int,
                (offset + len - 1) / old(self).page_bytes() as int + 1,
            ),
            r is Ok && len > 0 && !old(self).evicts() ==> final(self).data_file().requests() == old(
                self,
            ).data_file().requests() + old(self).keeps(
                offset as int / old(self).page_bytes() as int,
                (offset + len - 1) / old(self).page_bytes() as int + 1,
            ),
            (forall|i: int|
                offset <= i < offset + len ==> old(self).here(
                    #[trigger] (i / old(self).page_bytes() as int),
                )) ==> final(self).store() == old(self).store(),
            final(self).store().bytes() == old(self).store().bytes(),
            r is Ok && old(self).limits() ==> final(self).relieved(*old(self)) && (final(self).limits()
                || final(self).store_faults() > old(self).store_faults()),
            r is Err && old(self).even() && backend::fair_range(
                offset as int,
                len as int,
                old(self).bytes().len() as int,
            ) ==> final(self).store_faults() > old(self).store_faults() || final(self).spent(),
            len > 0 && !buffered::range_aligned(offset, len) ==> r == Err::<(), BackendError>(
                BackendError::UnalignedRange { op: Op::Prefetch, offset, len },
            ),
            len > 0 && buffered::range_aligned(offset, len) && offset + len > old(self).bytes().len()
                ==> (r matches Err(e) && buffered::out_of_range(
                Op::Prefetch,
                offset,
                len,
                old(self).bytes().len() as u64,
                e,
            )),
            r is Ok && len > 0 ==> final(self).here(
                (offset + len - 1) / final(self).page_bytes() as int,
            ),
            r is Ok && !old(self).evicts() ==> forall|i: int|
                offset <= i < offset + len ==> final(self).here(
                    #[trigger] (i / final(self).page_bytes() as int),
                ),
            r is Ok && !old(self).evicts() && old(self).sharing() is Some ==> forall|i: int|
                offset <= i < offset + len && !old(self).changed(
                    i / final(self).page_bytes() as int,
                ) ==> final(self).shown((#[trigger] (i / final(self).page_bytes() as int)) as u64),
    {
        proof {
            self.lemma_same_books(*old(self));
        }
        if len == 0 {
            return Ok(());
        }
        if offset % 512 != 0 || len % 512 != 0 {
            return Err(BackendError::UnalignedRange { op: Op::Prefetch, offset, len });
        }
        match check_in_bounds(Op::Prefetch, offset, len, self.dev_size) {
            Ok(()) => {},
            Err(e) => {
                return Err(e);
            },
        }
        proof {
            lemma_page_count(self.dev_size as int, self.ps());
            assert((offset + len - 1) / self.ps() < self.num_pages);
            pages::lemma_split(self.ps(), offset as int);
            pages::lemma_split(self.ps(), offset + len - 1);
        }
        let first: u64 = offset / self.page_size;
        let last: u64 = (offset + len - 1) / self.page_size;
        proof {
            assert(first <= last) by {
                if last < first {
                    pages::lemma_page_order(self.ps(), last as int, first as int);
                }
            }
        }
        let mut p: u64 = first;
        while p <= last
            invariant
                first <= p <= last + 1,
                last < self.num_pages,
                len > 0,
                buffered::range_aligned(offset, len),
                offset + len <= old(self).bytes().len(),
                self.num_pages <= self.dev_size,
                self.wf(),
                self.bytes() == old(self).bytes(),
                self.durable() == old(self).durable(),
                old(self).faithful() ==> self.faithful(),
                self.dirty == old(self).dirty,
                self.unsaved == old(self).unsaved,
                self.loads(*old(self), offset as int, len as int),
                self.lru.clock() <= old(self).lru.clock() + 2 * (p - first),
                first == offset as int / old(self).ps(),
                last == (offset + len - 1) / old(self).ps(),
                !old(self).evicts() ==> self.inner.requests() =~= old(self).inner.requests()
                    + old(self).fetches(first as int, p as int),
                !old(self).evicts() ==> self.data.requests() =~= old(self).data.requests()
                    + old(self).keeps(first as int, p as int),
                forall|q: int| p <= q && #[trigger] self.here(q) ==> old(self).here(q),
                !old(self).evicts() ==> forall|q: int|
                    0 <= q && #[trigger] old(self).here(q) ==> self.here(q),
                (forall|i: int|
                    offset <= i < offset + len ==> old(self).here(
                        #[trigger] (i / old(self).page_bytes() as int),
                    )) ==> self.inner == old(self).inner && self.present == old(self).present,
                self.num_pages == old(self).num_pages,
                self.grows(*old(self)),
                self.dev_size == old(self).dev_size,
                old(self).bounded() ==> self.bounded() && self.relieved(*old(self)),
                self.page_size == old(self).page_size,
                p > first ==> self.here(p - 1),
                self.evicts() == old(self).evicts(),
                !old(self).evicts() ==> forall|q: int| first <= q < p ==> #[trigger] self.here(q),
                self.index is Some == old(self).index is Some,
                !old(self).evicts() && self.index is Some ==> forall|q: int|
                    first <= q < p && !#[trigger] self.changed(q) ==> shown_in(self.index, q as u64),
            decreases last + 1 - p,
        {
            let ghost before = *self;
            proof {
                old(self).lemma_some_byte(offset as int, len as int, p as int);
                assert(before.here(p as int) ==> old(self).here(p as int));
                assert(before.fetch(p as int) == old(self).fetch(p as int));
                assert(before.keep(p as int) == old(self).keep(p as int));
            }
            let loaded = self.ensure_page(p);
            assert forall|q: int| 0 <= q && #[trigger] self.here(q) implies old(self).here(q)
                || pages::covers(old(self).ps(), offset as int, len as int, q) by {
                if q != p {
                    assert(before.here(q));
                }
            }
            match loaded {
                Ok(()) => {},
                Err(e) => {
                    return Err(e);
                },
            }
            let ghost ready = *self;
            if !bitmap::bit_get(&self.dirty, p) {
                let len = self.page_len(p);
                self.announce(p, len);
            }
            proof {
                self.lemma_same_books(ready);
                assert forall|q: int| 0 <= q && #[trigger] self.here(q) implies old(self).here(q)
                    || pages::covers(old(self).ps(), offset as int, len as int, q) by {
                    assert(ready.here(q));
                }
                if old(self).bounded() {
                    self.lemma_relieved(ready, before);
                    self.lemma_relieved(before, *old(self));
                }
                assert forall|q: int| p + 1 <= q && #[trigger] self.here(q) implies old(self).here(q) by {
                    assert(ready.here(q));
                    assert(before.here(q));
                }
                if !old(self).evicts() {
                    assert forall|q: int| 0 <= q && #[trigger] old(self).here(q) implies self.here(q) by {
                        assert(before.here(q));
                        assert(ready.here(q));
                    }
                    assert forall|q: int| first <= q < p + 1 implies #[trigger] self.here(q) by {
                        if q < p {
                            assert(before.here(q));
                        }
                        assert(ready.here(q));
                    }
                    assert forall|q: int| self.index is Some && first <= q < p + 1 && !#[trigger] self.changed(
                        q,
                    ) implies shown_in(self.index, q as u64) by {
                        assert(before.changed(q) == self.changed(q));
                        assert(ready.changed(q) == self.changed(q));
                        assert(self.shown(q as u64) == shown_in(self.index, q as u64));
                        assert(ready.shown(q as u64) == shown_in(ready.index, q as u64));
                    }
                }
            }
            p = p + 1;
        }
        proof {
            self.lemma_span(offset as int, len as int);
            assert forall|i: int|
                !old(self).evicts() && self.index is Some && offset <= i < offset + len && !old(self).changed(
                    i / self.page_bytes() as int,
                ) implies self.shown((#[trigger] (i / self.page_bytes() as int)) as u64) by {
                assert(!self.changed(i / self.page_bytes() as int));
            }
        }
        Ok(())
    }

    /// A warm-up up to `limit_bytes` loads page `p`: the page begins below the limit
    /// and, where the data ranges are known, holds data.
    pub open spec fn wanted(&self, limit_bytes: u64, ranges: Option<Seq<(u64, u64)>>, p: int) -> bool {
        &&& p * self.page_bytes() < backend::warm_limit(
            self.bytes().len() as int,
            limit_bytes as int,
        )
        &&& match ranges {
            Some(r) => backend::intersects(r, p * self.page_bytes(), self.len_of(p)),
            None => true,
        }
    }

    /// The bytes of those of the first `n` pages that a warm-up passes over: they
    /// begin below the limit and hold no data.
    pub open spec fn skipped_to(
        &self,
        limit_bytes: u64,
        ranges: Option<Seq<(u64, u64)>>,
        n: int,
    ) -> int
        decreases n,
    {
        if n <= 0 {
            0
        } else {
            let p = n - 1;
            self.skipped_to(limit_bytes, ranges, p) + (if self.wanted(limit_bytes, None, p)
                && !self.wanted(limit_bytes, ranges, p) {
                self.len_of(p)
            } else {
                0
            })
        }
    }

    /// The bytes of those of the first `n` pages that a warm-up has to fetch.
    pub open spec fn absent_to(
        &self,
        limit_bytes: u64,
        ranges: Option<Seq<(u64, u64)>>,
        n: int,
    ) -> int
        decreases n,
    {
        if n <= 0 {
            0
        } else {
            let p = n - 1;
            self.absent_to(limit_bytes, ranges, p) + (if self.wanted(limit_bytes, ranges, p)
                && !self.here(p) {
                self.len_of(p)
            } else {
                0
            })
        }
    }

    /// The requests that fetch those of the first `n` pages that a warm-up has to fetch.
    pub open spec fn fetches_to(
        &self,
        limit_bytes: u64,
        ranges: Option<Seq<(u64, u64)>>,
        n: int,
    ) -> Seq<Request>
        decreases n,
    {
        if n <= 0 {
            Seq::empty()
        } else if self.wanted(limit_bytes, ranges, n - 1) && !self.here(n - 1) {
            self.fetches_to(limit_bytes, ranges, n - 1).push(self.fetch(n - 1))
        } else {
            self.fetches_to(limit_bytes, ranges, n - 1)
        }
    }

    /// The requests that put those of the first `n` pages into the data file that a warm-up
    /// has to fetch.
    pub open spec fn keeps_to(
        &self,
        limit_bytes: u64,
        ranges: Option<Seq<(u64, u64)>>,
        n: int,
    ) -> Seq<Request>
        decreases n,
    {
        if n <= 0 {
            Seq::empty()
        } else if self.wanted(limit_bytes, ranges, n - 1) && !self.here(n - 1) {
            self.keeps_to(limit_bytes, ranges, n - 1).push(self.keep(n - 1))
        } else {
            self.keeps_to(limit_bytes, ranges, n - 1)
        }
    }

    /// `requests` adds to those of the inner backend fetches of pages that a warm-up
    /// wants, and nothing else.
    pub open spec fn fetched(
        &self,
        requests: Seq<Request>,
        limit_bytes: u64,
        ranges: Option<Seq<(u64, u64)>>,
    ) -> bool {
        let n = self.store().requests().len() as int;
        &&& requests.len() >= n
        &&& requests.take(n) == self.store().requests()
        &&& forall|k: int|
            n <= k < requests.len() ==> exists|p: int|
                0 <= p && #[trigger] self.wanted(limit_bytes, ranges, p) && #[trigger] requests[k]
                    == self.fetch(p)
    }

    /// One fetch more.
    proof fn lemma_fetched(
        &self,
        requests: Seq<Request>,
        limit_bytes: u64,
        ranges: Option<Seq<(u64, u64)>>,
        p: int,
    )
        requires
            self.fetched(requests, limit_bytes, ranges),
            0 <= p,
            self.wanted(limit_bytes, ranges, p),
        ensures
            self.fetched(requests.push(self.fetch(p)), limit_bytes, ranges),
    {
        let n = self.store().requests().len() as int;
        let more = requests.push(self.fetch(p));
        assert(more.take(n) =~= requests.take(n));
        assert forall|k: int| n <= k < more.len() implies exists|q: int|
            0 <= q && #[trigger] self.wanted(limit_bytes, ranges, q) && #[trigger] more[k]
                == self.fetch(q) by {
            if k < requests.len() {
                assert(more[k] == requests[k]);
                let q = choose|q: int|
                    0 <= q && #[trigger] self.wanted(limit_bytes, ranges, q) && requests[k]
                        == self.fetch(q);
                assert(self.wanted(limit_bytes, ranges, q) && more[k] == self.fetch(q));
            } else {
                assert(self.wanted(limit_bytes, ranges, p) && more[k] == self.fetch(p));
            }
        }
    }

    /// Pages from the limit on count for nothing.
    proof fn lemma_tail(
        &self,
        limit_bytes: u64,
        ranges: Option<Seq<(u64, u64)>>,
        p: int,
        n: int,
    )
        requires
            0 <= p <= n,
            p * self.page_size >= backend::warm_limit(
                self.bytes().len() as int,
                limit_bytes as int,
            ),
        ensures
            self.skipped_to(limit_bytes, ranges, n) == self.skipped_to(limit_bytes, ranges, p),
            self.absent_to(limit_bytes, ranges, n) == self.absent_to(limit_bytes, ranges, p),
            self.fetches_to(limit_bytes, ranges, n) == self.fetches_to(limit_bytes, ranges, p),
            self.keeps_to(limit_bytes, ranges, n) == self.keeps_to(limit_bytes, ranges, p),
        decreases n - p,
    {
        if p < n {
            self.lemma_tail(limit_bytes, ranges, p, n - 1);
            assert((n - 1) * self.page_size >= p * self.page_size) by (nonlinear_arith)
                requires
                    n - 1 >= p,
                    self.page_size >= 0,
            ;
        }
    }

    /// Warm `[0, limit_bytes)` into the cache, best effort, skipping pages that
    /// `data_ranges` says hold no data. A page that cannot be fetched is left out,
    /// and the warm-up goes on.
    #[verifier::rlimit(40)]
    pub fn warmup(
        &mut self,
        limit_bytes: u64,
        data_ranges: Option<&Vec<(u64, u64)>>,
    ) -> (r: Warmup)
        requires
            old(self).valid(),
        ensures
            final(self).ticks() <= old(self).ticks() + 2 * old(self).page_total(),
            final(self).undisturbed(*old(self)),
            final(self).orderly(*old(self)),
            final(self).valid(),
            final(self).bytes() == old(self).bytes(),
            final(self).durable() == old(self).durable(),
            old(self).faithful() ==> final(self).faithful(),
            forall|p: int| #[trigger] final(self).changed(p) == old(self).changed(p),
            forall|p: int|
                0 <= p && #[trigger] final(self).here(p) ==> old(self).here(p) || old(self).wanted(
                    limit_bytes,
                    csi::ranges_view(data_ranges),
                    p,
                ),
            !old(self).evicts() ==> forall|p: int|
                0 <= p && #[trigger] old(self).here(p) ==> final(self).here(p),
            r.skipped == old(self).skipped_to(
                limit_bytes,
                csi::ranges_view(data_ranges),
                old(self).page_total() as int,
            ),
            r.warmed + r.failed >= old(self).absent_to(
                limit_bytes,
                csi::ranges_view(data_ranges),
                old(self).page_total() as int,
            ),
            !old(self).evicts() ==> r.warmed + r.failed == old(self).absent_to(
                limit_bytes,
                csi::ranges_view(data_ranges),
                old(self).page_total() as int,
            ),
            !old(self).evicts() && r.failed == 0 ==> forall|p: int|
                0 <= p && #[trigger] old(self).wanted(
                    limit_bytes,
                    csi::ranges_view(data_ranges),
                    p,
                ) ==> final(self).here(p),
            r.warmed + r.skipped + r.failed <= old(self).bytes().len(),
            final(self).store().bytes() == old(self).store().bytes(),
            !old(self).evicts() ==> final(self).store().requests() == old(self).store().requests()
                + old(self).fetches_to(
                limit_bytes,
                csi::ranges_view(data_ranges),
                old(self).page_total() as int,
            ),
            !old(self).evicts() && r.failed == 0 ==> final(self).data_file().requests() == old(
                self,
            ).data_file().requests() + old(self).keeps_to(
                limit_bytes,
                csi::ranges_view(data_ranges),
                old(self).page_total() as int,
            ),
            old(self).fetched(
                final(self).store().requests(),
                limit_bytes,
                csi::ranges_view(data_ranges),
            ),
            final(self).store_faults() >= old(self).store_faults(),
            r.failed > 0 && old(self).even() && !final(self).spent()
                ==> final(self).store_faults() > old(self).store_faults(),
    {
        proof {
            lemma_page_count(self.dev_size as int, self.ps());
        }
        let limit: u64 = if limit_bytes < self.dev_size {
            limit_bytes
        } else {
            self.dev_size
        };
        let ghost view = csi::ranges_view(data_ranges);
        let mut warmed: u64 = 0;
        let mut skipped: u64 = 0;
        let mut failed: u64 = 0;
        let mut p: u64 = 0;
        let mut at: u64 = 0;
        assert(self.inner.requests().take(self.inner.requests().len() as int)
            =~= self.inner.requests());
        while at < limit
            invariant
                self.wf(),
                self.bytes() == old(self).bytes(),
                self.durable() == old(self).durable(),
                old(self).faithful() ==> self.faithful(),
                self.dirty == old(self).dirty,
                self.unsaved == old(self).unsaved,
                self.lru.clock() <= old(self).lru.clock() + 2 * p,
                self.grows(*old(self)),
                failed > 0 && self.even() ==> self.store_faults()
                    > old(self).store_faults() || self.spent(),
                self.dev_size == old(self).dev_size,
                self.page_size == old(self).page_size,
                self.num_pages == old(self).num_pages,
                self.evicts() == old(self).evicts(),
                !old(self).evicts() ==> self.inner.requests() =~= old(self).inner.requests()
                    + old(self).fetches_to(limit_bytes, view, p as int),
                !old(self).evicts() && failed == 0 ==> self.data.requests() =~= old(
                    self,
                ).data.requests() + old(self).keeps_to(limit_bytes, view, p as int),
                old(self).fetched(self.inner.requests(), limit_bytes, view),
                limit == backend::warm_limit(self.dev_size as int, limit_bytes as int),
                view == csi::ranges_view(data_ranges),
                limit <= self.dev_size,
                at <= self.dev_size,
                at < self.dev_size ==> at == p * self.page_size,
                p <= self.num_pages,
                self.num_pages <= self.dev_size,
                at <= p * self.page_size,
                warmed + skipped + failed <= at,
                skipped == old(self).skipped_to(limit_bytes, view, p as int),
                warmed + failed >= old(self).absent_to(limit_bytes, view, p as int),
                !old(self).evicts() ==> warmed + failed == old(self).absent_to(
                    limit_bytes,
                    view,
                    p as int,
                ),
                forall|q: int| p <= q && #[trigger] self.here(q) ==> old(self).here(q),
                !old(self).evicts() && failed == 0 ==> forall|q: int|
                    0 <= q < p && #[trigger] old(self).wanted(limit_bytes, view, q) ==> self.here(q),
                forall|q: int|
                    0 <= q && #[trigger] self.here(q) ==> old(self).here(q) || old(self).wanted(
                        limit_bytes,
                        view,
                        q,
                    ),
                !old(self).evicts() ==> forall|q: int|
                    0 <= q && #[trigger] old(self).here(q) ==> self.here(q),
            decreases self.dev_size - at,
        {
            proof {
                lemma_page_count(self.dev_size as int, self.ps());
                pages::lemma_in_page(self.ps(), p as int, 0);
                assert((at as int / self.ps()) < self.num_pages);
            }
            let len = self.page_len(p);
            let skip = match data_ranges {
                Some(ranges) => !backend::range_intersects(ranges, at, len),
                None => false,
            };
            proof {
                assert(len == old(self).len_of(p as int));
                assert(old(self).wanted(limit_bytes, None, p as int));
                assert(skip == !old(self).wanted(limit_bytes, view, p as int));
                assert(self.here(p as int) ==> old(self).here(p as int));
                assert(!old(self).evicts() && old(self).here(p as int) ==> self.here(p as int));
            }
            if skip {
                skipped = skipped + len;
            } else if !bitmap::bit_get(&self.present, p) {
                let ghost before = *self;
                assert(old(self).wanted(limit_bytes, view, p as int));
                let done = self.ensure_page(p);
                let ghost ready = *self;
                proof {
                    old(self).lemma_fetched(before.inner.requests(), limit_bytes, view, p as int);
                    assert(before.fetch(p as int) == old(self).fetch(p as int));
                    assert(before.keep(p as int) == old(self).keep(p as int));
                }
                match done {
                    Ok(()) => {
                        warmed = warmed + len;
                        self.announce(p, len);
                    },
                    Err(_) => {
                        failed = failed + len;
                    },
                }
                proof {
                    assert forall|q: int| 0 <= q && #[trigger] self.here(q) implies old(self).here(q)
                        || old(self).wanted(limit_bytes, view, q) by {
                        assert(ready.here(q));
                        if q != p {
                            assert(before.here(q));
                        }
                    }
                    if !old(self).evicts() {
                        assert forall|q: int| 0 <= q && #[trigger] old(self).here(q) implies self.here(
                            q,
                        ) by {
                            assert(before.here(q));
                            assert(ready.here(q));
                        }
                    }
                    assert forall|q: int| p + 1 <= q && #[trigger] self.here(q) implies old(self).here(
                        q,
                    ) by {
                        assert(ready.here(q));
                        assert(before.here(q));
                    }
                }
            }
            proof {
                assert((p + 1) * self.ps() == p * self.ps() + self.ps()) by (nonlinear_arith);
            }
            at = at + len;
            p = p + 1;
        }
        proof {
            old(self).lemma_tail(limit_bytes, view, p as int, old(self).page_total() as int);
            if !old(self).evicts() && failed == 0 {
                assert forall|q: int| 0 <= q && #[trigger] old(self).wanted(
                    limit_bytes,
                    view,
                    q,
                ) implies self.here(q) by {
                    if q >= p {
                        assert(q * self.page_size >= p * self.page_size) by (nonlinear_arith)
                            requires
                                q >= p,
                        ;
                    }
                }
            }
        }
        Warmup { warmed, skipped, failed }
    }

    // ── Pages of peers ──────────────────────────────────────────────────────

    /// Take over the texts of the shared registries, dropping dead owners.
    pub fn sync(&mut self, budget: &str, index: &str, live: &Vec<u32>)
        requires
            old(self).valid(),
        ensures
            final(self).undisturbed(*old(self)),
            final(self).orderly(*old(self)),
            final(self).valid(),
            final(self).bytes() == old(self).bytes(),
            final(self).durable() == old(self).durable(),
            forall|p: int| #[trigger] final(self).here(p) == old(self).here(p),
            forall|p: int| #[trigger] final(self).changed(p) == old(self).changed(p),
            match (old(self).allowance(), final(self).allowance()) {
                (Some(a), Some(b)) => b.limit() == a.limit() && b.me() == a.me() && b.records()
                    == cache_budget::pruned(
                    cache_budget::text_records(budget@),
                    a.me().1,
                    live@,
                ),
                (None, None) => true,
                _ => false,
            },
            match (old(self).sharing(), final(self).sharing()) {
                (Some(a), Some(b)) => b.me() == a.me() && b.page_len() == a.page_len()
                    && b.records() == cache_index::pruned(
                    cache_index::text_records(index@),
                    a.me().pid,
                    live@,
                ),
                (None, None) => true,
                _ => false,
            },
            final(self).faithful() == (old(self).faithful() && forall|p: u64| #[trigger]
                final(self).shown(p) ==> old(self).shown(p)),
    {
        match &mut self.budget {
            Some(b) => {
                b.load(budget, live);
            },
            None => {},
        }
        match &mut self.index {
            Some(x) => {
                x.load(index, live);
            },
            None => {},
        }
        let ghost own = forall|p: u64| #[trigger]
            shown_in(self.index, p) ==> shown_in(old(self).index, p);
        let ghost kept = old(self).faithful@ && own;
        self.faithful = Ghost(kept);
        proof {
            if forall|p: u64| #[trigger] self.shown(p) ==> old(self).shown(p) {
                assert forall|p: u64| #[trigger] shown_in(self.index, p) implies shown_in(
                    old(self).index,
                    p,
                ) by {
                    assert(self.shown(p));
                }
            }
            assert(self.shared_ok()) by {
                assert forall|p: u64| self.faithful@ && #[trigger] shown_in(self.index, p) implies p
                    < self.num_pages && bitmap::bit(self.present@, p as int) && !bitmap::bit(
                    self.dirty@,
                    p as int,
                ) by {
                    assert(self.shown(p));
                    assert(shown_in(old(self).index, p));
                }
            }
            assert(self.lru_ok()) by {
                assert forall|q: u64| self.budget is Some && #[trigger] self.lru.clean().contains(q)
                    implies q < self.num_pages && self.here(q as int) && !self.changed(q as int) by {
                    assert(old(self).lru.clean().contains(q));
                    assert(old(self).here(q as int) && !old(self).changed(q as int));
                }
            }
            Self::lemma_wf_same(*old(self), *self);
        }
    }

    /// The texts of the shared registries to write back, where the cache takes
    /// part in them.
    pub fn registries(&self) -> (r: (Option<String>, Option<String>))
        ensures
            match self.allowance() {
                Some(b) => r.0 matches Some(s) && s@ == cache_budget::records_text(
                    b.records(),
                    b.records().len() as int,
                ),
                None => r.0 is None,
            },
            match self.sharing() {
                Some(x) => r.1 matches Some(s) && s@ == cache_index::records_text(
                    x.records(),
                    x.records().len() as int,
                ),
                None => r.1 is None,
            },
    {
        let budget = match &self.budget {
            Some(b) => Some(b.text()),
            None => None,
        };
        let index = match &self.index {
            Some(x) => Some(x.text()),
            None => None,
        };
        (budget, index)
    }

    /// The byte budget, if there is one.
    pub closed spec fn allowance(&self) -> Option<&CacheBudget> {
        match self.budget {
            Some(b) => Some(&b),
            None => None,
        }
    }

    /// What peers offer for the pages that are not dirty is what the inner backend
    /// holds, as it is where all of them mirror the same blob.
    pub open spec fn agrees<P: BlobBackend>(&self, peers: Peers<P>) -> bool {
        forall|p: u64, d: Seq<u8>|
            p < self.page_total() && !self.changed(p as int) && #[trigger] peers.offers(
                p,
                self.len_of(p as int) as u64,
                d,
            ) ==> d == self.store().bytes().subrange(
                p * self.page_bytes(),
                p * self.page_bytes() + self.len_of(p as int),
            )
    }

    /// Every page of `[offset, offset + len)` is in the data file, or a peer has it.
    pub open spec fn within_reach<P: BlobBackend>(
        &self,
        peers: Peers<P>,
        offset: int,
        len: int,
    ) -> bool {
        forall|i: int|
            offset <= i < offset + len ==> self.reaches(
                peers,
                #[trigger] (i / self.page_bytes() as int),
            )
    }

    /// Page `p` is in the data file, or a peer has it.
    pub open spec fn reaches<P: BlobBackend>(&self, peers: Peers<P>, p: int) -> bool {
        self.here(p) || peers.has(p as u64, self.len_of(p) as u64)
    }

    /// The pages of a range that is within reach are.
    proof fn lemma_reached<P: BlobBackend>(&self, peers: Peers<P>, offset: int, len: int, p: int)
        requires
            self.page_size > 0,
            0 <= offset,
            0 < len,
            offset / self.ps() <= p <= (offset + len - 1) / self.ps(),
            self.within_reach(peers, offset, len),
        ensures
            self.reaches(peers, p),
    {
        self.lemma_some_byte(offset, len, p);
        let i = choose|i: int|
            offset <= i < offset + len && #[trigger] (i / self.page_bytes() as int) == p;
        assert(self.reaches(peers, i / self.page_bytes() as int));
    }

    /// Byte `i` of the device may read `b`: what the device holds, or, on a page
    /// that is not in the data file, what a peer's copy of it holds.
    pub open spec fn shared_byte<P: BlobBackend>(&self, peers: Peers<P>, i: int, b: u8) -> bool {
        let p = i / self.page_bytes() as int;
        ||| b == self.bytes()[i]
        ||| !self.here(p) && exists|d: Seq<u8>|
            #[trigger] peers.offers(p as u64, self.len_of(p) as u64, d) && b == d[i - p
                * self.page_bytes()]
    }

    /// What a byte may read does not depend on what was read before.
    proof fn lemma_shared_kept<P: BlobBackend>(
        &self,
        o: Self,
        before: Peers<P>,
        after: Peers<P>,
        i: int,
        b: u8,
    )
        requires
            self.shared_byte(after, i, b),
            self.bytes() == o.bytes(),
            self.page_size == o.page_size,
            forall|p: int| #[trigger] self.here(p) == o.here(p),
            after.same_pages(before),
        ensures
            o.shared_byte(before, i, b),
    {
        let p = i / self.page_bytes() as int;
        assert(self.here(p) == o.here(p));
        if b != self.bytes()[i] {
            let d = choose|d: Seq<u8>|
                #[trigger] after.offers(p as u64, self.len_of(p) as u64, d) && b == d[i - p
                    * self.page_bytes()];
            Peers::lemma_same_offers(before, after, p as u64, self.len_of(p) as u64, d);
            assert(before.offers(p as u64, o.len_of(p) as u64, d));
        }
    }

    /// Read `chunk` bytes of page `p` at `at`, from a live peer's copy where the page
    /// is not in the data file.
    #[verifier::rlimit(40)]
    fn shared_piece<P: BlobBackend>(
        &mut self,
        p: u64,
        at: u64,
        chunk: u64,
        peers: &mut Peers<P>,
    ) -> (r: Result<Vec<u8>, BackendError>)
        requires
            old(self).wf(),
            old(peers).valid(),
            p < old(self).num_pages,
            p == at as int / old(self).ps(),
            0 < chunk,
            chunk % 512 == 0,
            at % 512 == 0,
            at + chunk <= old(self).dev_size,
            at as int % old(self).ps() + chunk <= old(self).ps(),
        ensures
            final(self).ticks() <= old(self).ticks() + 1,
            final(self).wf(),
            final(self).bytes() == old(self).bytes(),
            final(self).durable() == old(self).durable(),
            old(self).faithful() ==> final(self).faithful(),
            forall|q: int| #[trigger] final(self).here(q) == old(self).here(q),
            forall|q: int| #[trigger] final(self).changed(q) == old(self).changed(q),
            final(self).dev_size == old(self).dev_size,
            final(self).page_size == old(self).page_size,
            final(self).num_pages == old(self).num_pages,
            final(self).unsaved == old(self).unsaved,
            final(self).grows(*old(self)),
            final(peers).valid(),
            final(peers).same_pages(*old(peers)),
            final(peers).grew(*old(peers)),
            final(peers).even() == old(peers).even(),
            old(self).here(p as int) || old(peers).has(p, old(self).len_of(p as int) as u64)
                ==> final(self).inner == old(self).inner || final(peers).failed_since(*old(peers)),
            r matches Ok(d) ==> d@.len() == chunk && forall|k: int|
                0 <= k < chunk ==> old(self).shared_byte(*old(peers), at + k, #[trigger] d@[k]),
            r is Err && old(self).even() && old(peers).even()
                ==> final(self).store_faults() > old(self).store_faults() || final(self).spent()
                || final(peers).failed_since(*old(peers)),
    {
        if !bitmap::bit_get(&self.present, p) {
            let n = self.page_len(p);
            proof {
                pages::lemma_page_aligned(self.ps(), p as int);
                pages::lemma_split(self.ps(), at as int);
            }
            let copy = match peers.page(p, n) {
                Ok(c) => c,
                Err(e) => {
                    return Err(e);
                },
            };
            match copy {
                Some(page) => {
                    let from: u64 = at % self.page_size;
                    proof {
                        self.lemma_page_bytes(p as int, at + chunk - 1);
                        pages::lemma_same_page(self.ps(), at as int, chunk - 1);
                    }
                    let piece = pages::copy_range(&page, from as usize, (from + chunk) as usize);
                    proof {
                        assert forall|k: int| 0 <= k < chunk implies old(self).shared_byte(
                            *old(peers),
                            at + k,
                            #[trigger] piece@[k],
                        ) by {
                            pages::lemma_same_page(self.ps(), at as int, k);
                            assert(piece@[k] == page@[from + k]);
                            assert(!old(self).here(p as int));
                            let q = (at + k) / old(self).page_bytes() as int;
                            assert(q == p);
                            assert(at + k - q * old(self).page_bytes() == from + k);
                            assert(old(peers).offers(q as u64, old(self).len_of(q) as u64, page@));
                            assert(piece@[k] == page@[at + k - q * old(self).page_bytes()]);
                        }
                    }
                    return Ok(piece);
                },
                None => {},
            }
        }
        let data = self.read_piece(p, at, chunk);
        proof {
            if data is Ok {
                assert forall|k: int| 0 <= k < chunk implies old(self).shared_byte(
                    *old(peers),
                    at + k,
                    #[trigger] data->Ok_0@[k],
                ) by {
                    assert(data->Ok_0@[k] == old(self).bytes()[at + k]);
                }
            }
        }
        data
    }

    /// Read `len` bytes at `offset`, preferring a live peer's copy of a page that
    /// is not in the data file to the inner backend. What is read does not enter
    /// the cache. Where the peers agree with the inner backend this is a plain
    /// read.
    #[verifier::rlimit(40)]
    pub fn read_shared<P: BlobBackend>(&mut self, offset: u64, len: u64, peers: &mut Peers<P>) -> (r:
        Result<Vec<u8>, BackendError>)
        requires
            old(self).valid(),
            old(peers).valid(),
        ensures
            final(self).ticks() <= old(self).ticks() + len,
            final(self).undisturbed(*old(self)),
            final(self).orderly(*old(self)),
            final(self).valid(),
            final(self).bytes() == old(self).bytes(),
            final(self).durable() == old(self).durable(),
            old(self).faithful() ==> final(self).faithful(),
            forall|p: int| #[trigger] final(self).here(p) == old(self).here(p),
            forall|p: int| #[trigger] final(self).changed(p) == old(self).changed(p),
            final(peers).valid(),
            final(peers).same_pages(*old(peers)),
            len == 0 ==> (r matches Ok(d) && d@.len() == 0),
            len > 0 && !buffered::range_aligned(offset, len) ==> r == Err::<Vec<u8>, BackendError>(
                BackendError::UnalignedRange { op: Op::Read, offset, len },
            ),
            len > 0 && buffered::range_aligned(offset, len) && offset + len > old(self).bytes().len()
                ==> (r matches Err(e) && buffered::out_of_range(
                Op::Read,
                offset,
                len,
                old(self).bytes().len() as u64,
                e,
            )),
            r matches Ok(d) ==> d@.len() == len && forall|k: int|
                0 <= k < len ==> old(self).shared_byte(*old(peers), offset + k, #[trigger] d@[k]),
            r is Err && old(self).even() && backend::fair_range(
                offset as int,
                len as int,
                old(self).bytes().len() as int,
            ) && old(peers).even() ==> final(self).store_faults() > old(self).store_faults() || final(self).spent()
                || final(peers).failed_since(*old(peers)),
            old(self).within_reach(*old(peers), offset as int, len as int) ==> final(self).store()
                == old(self).store() || final(peers).failed_since(*old(peers)),
            final(self).store().bytes() == old(self).store().bytes(),
            old(self).agrees(*old(peers)) && len > 0 ==> (r matches Ok(d) ==> d@ == old(self).bytes().subrange(offset as int, offset + len)),
    {
        if len == 0 {
            return Ok(Vec::new());
        }
        if offset % 512 != 0 || len % 512 != 0 {
            return Err(BackendError::UnalignedRange { op: Op::Read, offset, len });
        }
        match check_in_bounds(Op::Read, offset, len, self.dev_size) {
            Ok(()) => {},
            Err(e) => {
                return Err(e);
            },
        }
        let page_size: u64 = self.page_size;
        let mut out: Vec<u8> = Vec::new();
        let mut pos: u64 = 0;
        while pos < len
            invariant
                self.wf(),
                self.bytes() == old(self).bytes(),
                self.durable() == old(self).durable(),
                old(self).faithful() ==> self.faithful(),
                old(self).wf(),
                forall|p: int| #[trigger] self.here(p) == old(self).here(p),
                forall|p: int| #[trigger] self.changed(p) == old(self).changed(p),
                self.dev_size == old(self).dev_size,
                self.page_size == old(self).page_size,
                self.num_pages == old(self).num_pages,
                self.unsaved == old(self).unsaved,
                self.lru.clock() <= old(self).lru.clock() + pos,
                page_size == self.page_size,
                peers.valid(),
                peers.same_pages(*old(peers)),
                peers.grew(*old(peers)),
                old(self).within_reach(*old(peers), offset as int, len as int) ==> self.inner
                    == old(self).inner || peers.failed_since(*old(peers)),
                peers.even() == old(peers).even(),
                self.grows(*old(self)),
                pos % 512 == 0,
                pos <= len,
                0 < len,
                offset + len <= self.dev_size,
                buffered::range_aligned(offset, len),
                out@.len() == pos,
                forall|k: int|
                    0 <= k < pos ==> old(self).shared_byte(*old(peers), offset + k, #[trigger] out@[k]),
            decreases len - pos,
        {
            let at: u64 = offset + pos;
            let p: u64 = at / page_size;
            proof {
                pages::lemma_split(page_size as int, at as int);
                lemma_page_count(self.dev_size as int, page_size as int);
                assert((at as int / page_size as int) < self.num_pages);
            }
            let chunk: u64 = next_piece(page_size, offset, len, pos);
            let ghost before = out@;
            let ghost start = *self;
            let ghost had = *peers;
            let got = self.shared_piece(p, at, chunk, peers);
            proof {
                peers.lemma_failed(had, *old(peers));
                if old(self).within_reach(*old(peers), offset as int, len as int) {
                    assert(offset <= at < offset + len);
                    assert(old(self).reaches(*old(peers), at as int / old(self).page_bytes() as int));
                    assert(start.here(p as int) == old(self).here(p as int));
                    Peers::lemma_same_has(*old(peers), had, p, old(self).len_of(p as int) as u64);
                }
            }
            let data = match got {
                Ok(d) => d,
                Err(e) => {
                    return Err(e);
                },
            };
            pages::append_range(&mut out, &data, 0, data.len());
            proof {
                assert(data@.subrange(0, data@.len() as int) == data@);
                assert forall|k: int| 0 <= k < pos + chunk implies old(self).shared_byte(
                    *old(peers),
                    offset + k,
                    #[trigger] out@[k],
                ) by {
                    if k < pos {
                        assert(out@[k] == before[k]);
                    } else {
                        assert(out@[k] == data@[k - pos]);
                        assert(start.shared_byte(had, at + (k - pos), data@[k - pos]));
                        start.lemma_shared_kept(*old(self), *old(peers), had, offset + k, out@[k]);
                    }
                }
            }
            pos = pos + chunk;
        }
        proof {
            if old(self).agrees(*old(peers)) {
                assert forall|k: int| 0 <= k < len implies out@[k] == #[trigger] old(self).bytes().subrange(
                    offset as int,
                    offset + len,
                )[k] by {
                    let i = offset + k;
                    let p = i / old(self).ps();
                    assert(old(self).shared_byte(*old(peers), i, out@[k]));
                    lemma_page_count(old(self).dev_size as int, old(self).ps());
                    pages::lemma_split(old(self).ps(), i);
                    assert(0 <= p < old(self).num_pages);
                    if out@[k] != old(self).bytes()[i] {
                        let d = choose|d: Seq<u8>|
                            #[trigger] old(peers).offers(p as u64, old(self).len_of(p) as u64, d)
                                && out@[k] == d[i - p * old(self).page_bytes()];
                        old(self).lemma_page_bytes(p, i);
                        assert(!old(self).changed(p)) by {
                            assert(bitmap::bit(old(self).dirty@, p) ==> bitmap::bit(
                                old(self).present@,
                                p,
                            ));
                        }
                        assert(old(self).byte_at(i) == old(self).inner.bytes()[i]);
                        assert(d == old(self).inner.bytes().subrange(
                            p * old(self).ps(),
                            p * old(self).ps() + old(self).len_of(p),
                        ));
                    }
                }
                assert(out@ =~= old(self).bytes().subrange(offset as int, offset + len));
            }
        }
        Ok(out)
    }

    /// Bring page `p` into the data file, from a live peer's copy or else from the
    /// inner backend.
    fn ensure_shared<P: BlobBackend>(&mut self, p: u64, peers: &mut Peers<P>) -> (r: Result<
        (),
        BackendError,
    >)
        requires
            old(self).wf(),
            p < old(self).num_pages,
            old(peers).valid(),
            old(self).agrees(*old(peers)),
        ensures
            final(self).ticks() <= old(self).ticks() + 2,
            final(self).wf(),
            final(self).bytes() == old(self).bytes(),
            final(self).durable() == old(self).durable(),
            old(self).faithful() ==> final(self).faithful(),
            final(self).same_but_loaded(*old(self), p as int),
            final(self).inner.bytes() == old(self).inner.bytes(),
            r is Ok ==> final(self).here(p as int),
            final(peers).valid(),
            final(peers).same_pages(*old(peers)),
            final(peers).grew(*old(peers)),
            final(peers).even() == old(peers).even(),
            old(self).reaches(*old(peers), p as int) ==> final(self).inner == old(self).inner
                || final(peers).failed_since(*old(peers)),
            final(self).inner.requests() == old(self).inner.requests() || final(self).inner.requests()
                == old(self).inner.requests().push(old(self).fetch(p as int)),
            old(self).spent() ==> final(self).spent(),
            r is Ok && old(self).bounded() ==> final(self).bounded() && final(self).relieved(*old(self)),
            r is Err && old(self).even() && old(peers).even() ==> final(self).store_faults() > old(self).store_faults() || final(self).spent()
                || final(peers).failed_since(*old(peers)),
            old(self).here(p as int) ==> r is Ok && *final(self) == *old(self) && *final(peers)
                == *old(peers),
    {
        proof {
            self.lemma_same_books(*old(self));
            pages::lemma_page_aligned(self.ps(), p as int);
        }
        if bitmap::bit_get(&self.present, p) {
            return Ok(());
        }
        let len = self.page_len(p);
        let copy = match peers.page(p, len) {
            Ok(c) => c,
            Err(e) => {
                return Err(e);
            },
        };
        match copy {
            Some(page) => {
                proof {
                    assert(old(peers).offers(p, self.len_of(p as int) as u64, page@));
                    assert(!self.changed(p as int)) by {
                        assert(bitmap::bit(self.dirty@, p as int) ==> bitmap::bit(
                            self.present@,
                            p as int,
                        ));
                    }
                }
                self.store_clean_page(p, &page)
            },
            None => self.ensure_page(p),
        }
    }

    /// Agreement stays while the inner backend, the dirty pages and the peers do.
    proof fn lemma_agrees_kept<P: BlobBackend>(a: Self, b: Self, before: Peers<P>, after: Peers<P>)
        requires
            a.agrees(before),
            after.same_pages(before),
            b.inner.bytes() == a.inner.bytes(),
            b.dirty == a.dirty,
            b.page_size == a.page_size,
            b.dev_size == a.dev_size,
            b.num_pages == a.num_pages,
        ensures
            b.agrees(after),
    {
        assert forall|p: u64, d: Seq<u8>|
            p < b.page_total() && !b.changed(p as int) && #[trigger] after.offers(
                p,
                b.len_of(p as int) as u64,
                d,
            ) implies d == b.store().bytes().subrange(
            p * b.page_bytes(),
            p * b.page_bytes() + b.len_of(p as int),
        ) by {
            Peers::lemma_same_offers(before, after, p, b.len_of(p as int) as u64, d);
            assert(before.offers(p, a.len_of(p as int) as u64, d));
            assert(!a.changed(p as int));
        }
    }

    /// Make `[offset, offset + len)` resident as clean pages, each from a live
    /// peer's copy or else from the inner backend.
    #[verifier::rlimit(40)]
    pub fn prefetch_shared<P: BlobBackend>(
        &mut self,
        offset: u64,
        len: u64,
        peers: &mut Peers<P>,
    ) -> (r: Result<(), BackendError>)
        requires
            old(self).valid(),
            old(peers).valid(),
            old(self).agrees(*old(peers)),
        ensures
            final(self).ticks() <= old(self).ticks() + 2 * old(self).page_total(),
            final(self).undisturbed(*old(self)),
            final(self).orderly(*old(self)),
            final(self).valid(),
            final(self).bytes() == old(self).bytes(),
            final(self).durable() == old(self).durable(),
            old(self).faithful() ==> final(self).faithful(),
            forall|p: int| #[trigger] final(self).changed(p) == old(self).changed(p),
            final(self).agrees(*final(peers)),
            final(peers).valid(),
            final(peers).same_pages(*old(peers)),
            len == 0 ==> r is Ok,
            final(self).loads(*old(self), offset as int, len as int),
            !old(self).evicts() && old(self).within_reach(*old(peers), offset as int, len as int)
                ==> final(self).store() == old(self).store() || final(peers).failed_since(*old(peers)),
            final(self).store().bytes() == old(self).store().bytes(),
            r is Ok && old(self).limits() ==> final(self).relieved(*old(self)) && (final(self).limits()
                || final(self).store_faults() > old(self).store_faults()),
            r is Err && old(self).even() && backend::fair_range(
                offset as int,
                len as int,
                old(self).bytes().len() as int,
            ) && old(peers).even() ==> final(self).store_faults() > old(self).store_faults() || final(self).spent()
                || final(peers).failed_since(*old(peers)),
            len > 0 && !buffered::range_aligned(offset, len) ==> r == Err::<(), BackendError>(
                BackendError::UnalignedRange { op: Op::Prefetch, offset, len },
            ),
            len > 0 && buffered::range_aligned(offset, len) && offset + len > old(self).bytes().len()
                ==> (r matches Err(e) && buffered::out_of_range(
                Op::Prefetch,
                offset,
                len,
                old(self).bytes().len() as u64,
                e,
            )),
            r is Ok && len > 0 ==> final(self).here(
                (offset + len - 1) / final(self).page_bytes() as int,
            ),
            r is Ok && !old(self).evicts() ==> forall|i: int|
                offset <= i < offset + len ==> final(self).here(
                    #[trigger] (i / final(self).page_bytes() as int),
                ),
            r is Ok && !old(self).evicts() && old(self).sharing() is Some ==> forall|i: int|
                offset <= i < offset + len && !old(self).changed(
                    i / final(self).page_bytes() as int,
                ) ==> final(self).shown((#[trigger] (i / final(self).page_bytes() as int)) as u64),
    {
        proof {
            self.lemma_same_books(*old(self));
        }
        if len == 0 {
            return Ok(());
        }
        if offset % 512 != 0 || len % 512 != 0 {
            return Err(BackendError::UnalignedRange { op: Op::Prefetch, offset, len });
        }
        match check_in_bounds(Op::Prefetch, offset, len, self.dev_size) {
            Ok(()) => {},
            Err(e) => {
                return Err(e);
            },
        }
        proof {
            lemma_page_count(self.dev_size as int, self.ps());
            assert((offset + len - 1) / self.ps() < self.num_pages);
            pages::lemma_split(self.ps(), offset as int);
            pages::lemma_split(self.ps(), offset + len - 1);
        }
        let first: u64 = offset / self.page_size;
        let last: u64 = (offset + len - 1) / self.page_size;
        proof {
            assert(first <= last) by {
                if last < first {
                    pages::lemma_page_order(self.ps(), last as int, first as int);
                }
            }
        }
        let mut p: u64 = first;
        while p <= last
            invariant
                first <= p <= last + 1,
                last < self.num_pages,
                len > 0,
                buffered::range_aligned(offset, len),
                offset + len <= old(self).bytes().len(),
                self.num_pages <= self.dev_size,
                self.wf(),
                self.bytes() == old(self).bytes(),
                self.durable() == old(self).durable(),
                old(self).faithful() ==> self.faithful(),
                self.dirty == old(self).dirty,
                !old(self).evicts() && old(self).within_reach(*old(peers), offset as int, len as int)
                    ==> self.inner == old(self).inner || peers.failed_since(*old(peers)),
                forall|q: int| p <= q && #[trigger] self.here(q) ==> old(self).here(q),
                !old(self).evicts() ==> forall|q: int|
                    0 <= q && #[trigger] old(self).here(q) ==> self.here(q),
                first == offset as int / old(self).ps(),
                last == (offset + len - 1) / old(self).ps(),
                self.unsaved == old(self).unsaved,
                self.loads(*old(self), offset as int, len as int),
                self.lru.clock() <= old(self).lru.clock() + 2 * (p - first),
                self.num_pages == old(self).num_pages,
                self.grows(*old(self)),
                self.dev_size == old(self).dev_size,
                peers.grew(*old(peers)),
                peers.even() == old(peers).even(),
                old(self).bounded() ==> self.bounded() && self.relieved(*old(self)),
                self.page_size == old(self).page_size,
                peers.valid(),
                peers.same_pages(*old(peers)),
                self.agrees(*peers),
                p > first ==> self.here(p - 1),
                self.evicts() == old(self).evicts(),
                !old(self).evicts() ==> forall|q: int| first <= q < p ==> #[trigger] self.here(q),
                self.index is Some == old(self).index is Some,
                !old(self).evicts() && self.index is Some ==> forall|q: int|
                    first <= q < p && !#[trigger] self.changed(q) ==> shown_in(self.index, q as u64),
            decreases last + 1 - p,
        {
            let ghost before = *self;
            let ghost had = *peers;
            let done = self.ensure_shared(p, peers);
            assert forall|q: int| 0 <= q && #[trigger] self.here(q) implies old(self).here(q)
                || pages::covers(old(self).ps(), offset as int, len as int, q) by {
                if q != p {
                    assert(before.here(q));
                }
            }
            proof {
                Self::lemma_agrees_kept(before, *self, had, *peers);
                peers.lemma_failed(had, *old(peers));
                if !old(self).evicts() && old(self).within_reach(
                    *old(peers),
                    offset as int,
                    len as int,
                ) {
                    old(self).lemma_reached(*old(peers), offset as int, len as int, p as int);
                    assert(before.here(p as int) == old(self).here(p as int));
                    Peers::lemma_same_has(*old(peers), had, p, old(self).len_of(p as int) as u64);
                    assert(before.reaches(had, p as int));
                }
            }
            match done {
                Ok(()) => {},
                Err(e) => {
                    return Err(e);
                },
            }
            let ghost ready = *self;
            if !bitmap::bit_get(&self.dirty, p) {
                let n = self.page_len(p);
                self.announce(p, n);
                proof {
                    Self::lemma_agrees_kept(ready, *self, *peers, *peers);
                }
            }
            proof {
                self.lemma_same_books(ready);
                assert forall|q: int| 0 <= q && #[trigger] self.here(q) implies old(self).here(q)
                    || pages::covers(old(self).ps(), offset as int, len as int, q) by {
                    assert(ready.here(q));
                }
                if old(self).bounded() {
                    self.lemma_relieved(ready, before);
                    self.lemma_relieved(before, *old(self));
                }
                assert forall|q: int| p + 1 <= q && #[trigger] self.here(q) implies old(self).here(q) by {
                    assert(ready.here(q));
                    assert(before.here(q));
                }
                if !old(self).evicts() {
                    assert forall|q: int| 0 <= q && #[trigger] old(self).here(q) implies self.here(q) by {
                        assert(before.here(q));
                        assert(ready.here(q));
                    }
                    assert forall|q: int| first <= q < p + 1 implies #[trigger] self.here(q) by {
                        if q < p {
                            assert(before.here(q));
                        }
                        assert(ready.here(q));
                    }
                    assert forall|q: int| self.index is Some && first <= q < p + 1 && !#[trigger] self.changed(
                        q,
                    ) implies shown_in(self.index, q as u64) by {
                        assert(before.changed(q) == self.changed(q));
                        assert(ready.changed(q) == self.changed(q));
                        assert(self.shown(q as u64) == shown_in(self.index, q as u64));
                        assert(ready.shown(q as u64) == shown_in(ready.index, q as u64));
                    }
                }
            }
            p = p + 1;
        }
        proof {
            self.lemma_span(offset as int, len as int);
            assert forall|i: int|
                !old(self).evicts() && self.index is Some && offset <= i < offset + len && !old(self).changed(
                    i / self.page_bytes() as int,
                ) implies self.shown((#[trigger] (i / self.page_bytes() as int)) as u64) by {
                assert(!self.changed(i / self.page_bytes() as int));
            }
        }
        Ok(())
    }

    /// Warm `[0, limit_bytes)` into the cache as [`FileCacheBackend::warmup`] does,
    /// each page from a live peer's copy or else from the inner backend.
    #[verifier::rlimit(40)]
    pub fn warmup_shared<P: BlobBackend>(
        &mut self,
        limit_bytes: u64,
        data_ranges: Option<&Vec<(u64, u64)>>,
        peers: &mut Peers<P>,
    ) -> (r: Warmup)
        requires
            old(self).valid(),
            old(peers).valid(),
            old(self).agrees(*old(peers)),
        ensures
            final(self).ticks() <= old(self).ticks() + 2 * old(self).page_total(),
            final(self).undisturbed(*old(self)),
            final(self).orderly(*old(self)),
            final(self).valid(),
            final(self).bytes() == old(self).bytes(),
            final(self).durable() == old(self).durable(),
            old(self).faithful() ==> final(self).faithful(),
            forall|p: int| #[trigger] final(self).changed(p) == old(self).changed(p),
            forall|p: int|
                0 <= p && #[trigger] final(self).here(p) ==> old(self).here(p) || old(self).wanted(
                    limit_bytes,
                    csi::ranges_view(data_ranges),
                    p,
                ),
            !old(self).evicts() ==> forall|p: int|
                0 <= p && #[trigger] old(self).here(p) ==> final(self).here(p),
            final(self).agrees(*final(peers)),
            final(peers).valid(),
            final(peers).same_pages(*old(peers)),
            r.skipped == old(self).skipped_to(
                limit_bytes,
                csi::ranges_view(data_ranges),
                old(self).page_total() as int,
            ),
            r.warmed + r.failed >= old(self).absent_to(
                limit_bytes,
                csi::ranges_view(data_ranges),
                old(self).page_total() as int,
            ),
            !old(self).evicts() ==> r.warmed + r.failed == old(self).absent_to(
                limit_bytes,
                csi::ranges_view(data_ranges),
                old(self).page_total() as int,
            ),
            !old(self).evicts() && r.failed == 0 ==> forall|p: int|
                0 <= p && #[trigger] old(self).wanted(
                    limit_bytes,
                    csi::ranges_view(data_ranges),
                    p,
                ) ==> final(self).here(p),
            r.warmed + r.skipped + r.failed <= old(self).bytes().len(),
            final(self).store().bytes() == old(self).store().bytes(),
            !old(self).evicts() && (forall|p: int|
                0 <= p && #[trigger] old(self).wanted(
                    limit_bytes,
                    csi::ranges_view(data_ranges),
                    p,
                ) ==> old(self).reaches(*old(peers), p)) ==> final(self).store() == old(self).store()
                || final(peers).failed_since(*old(peers)),
            old(self).fetched(
                final(self).store().requests(),
                limit_bytes,
                csi::ranges_view(data_ranges),
            ),
            final(self).store_faults() >= old(self).store_faults(),
            r.failed > 0 && old(self).even() && old(peers).even() ==> final(self).store_faults() > old(self).store_faults() || final(self).spent()
                || final(peers).failed_since(*old(peers)),
    {
        proof {
            lemma_page_count(self.dev_size as int, self.ps());
        }
        let limit: u64 = if limit_bytes < self.dev_size {
            limit_bytes
        } else {
            self.dev_size
        };
        let ghost view = csi::ranges_view(data_ranges);
        let mut warmed: u64 = 0;
        let mut skipped: u64 = 0;
        let mut failed: u64 = 0;
        let mut p: u64 = 0;
        let mut at: u64 = 0;
        let ghost all = !old(self).evicts() && forall|q: int|
            0 <= q && #[trigger] old(self).wanted(limit_bytes, view, q) ==> old(self).reaches(
                *old(peers),
                q,
            );
        assert(self.inner.requests().take(self.inner.requests().len() as int)
            =~= self.inner.requests());
        while at < limit
            invariant
                self.wf(),
                self.bytes() == old(self).bytes(),
                self.durable() == old(self).durable(),
                old(self).faithful() ==> self.faithful(),
                self.dirty == old(self).dirty,
                self.unsaved == old(self).unsaved,
                self.lru.clock() <= old(self).lru.clock() + 2 * p,
                self.grows(*old(self)),
                peers.grew(*old(peers)),
                peers.even() == old(peers).even(),
                failed > 0 && self.even() && old(peers).even() ==> self.store_faults()
                    > old(self).store_faults() || self.spent() || peers.failed_since(*old(peers)),
                self.dev_size == old(self).dev_size,
                self.page_size == old(self).page_size,
                self.num_pages == old(self).num_pages,
                self.evicts() == old(self).evicts(),
                all == (!old(self).evicts() && forall|q: int|
                    0 <= q && #[trigger] old(self).wanted(limit_bytes, view, q) ==> old(self).reaches(
                        *old(peers),
                        q,
                    )),
                all ==> self.inner == old(self).inner || peers.failed_since(*old(peers)),
                old(self).fetched(self.inner.requests(), limit_bytes, view),
                limit == backend::warm_limit(self.dev_size as int, limit_bytes as int),
                view == csi::ranges_view(data_ranges),
                limit <= self.dev_size,
                at <= self.dev_size,
                at < self.dev_size ==> at == p * self.page_size,
                p <= self.num_pages,
                self.num_pages <= self.dev_size,
                at <= p * self.page_size,
                warmed + skipped + failed <= at,
                skipped == old(self).skipped_to(limit_bytes, view, p as int),
                warmed + failed >= old(self).absent_to(limit_bytes, view, p as int),
                !old(self).evicts() ==> warmed + failed == old(self).absent_to(
                    limit_bytes,
                    view,
                    p as int,
                ),
                forall|q: int| p <= q && #[trigger] self.here(q) ==> old(self).here(q),
                !old(self).evicts() && failed == 0 ==> forall|q: int|
                    0 <= q < p && #[trigger] old(self).wanted(limit_bytes, view, q) ==> self.here(q),
                self.agrees(*peers),
                peers.valid(),
                peers.same_pages(*old(peers)),
                forall|q: int|
                    0 <= q && #[trigger] self.here(q) ==> old(self).here(q) || old(self).wanted(
                        limit_bytes,
                        view,
                        q,
                    ),
                !old(self).evicts() ==> forall|q: int|
                    0 <= q && #[trigger] old(self).here(q) ==> self.here(q),
            decreases self.dev_size - at,
        {
            proof {
                lemma_page_count(self.dev_size as int, self.ps());
                pages::lemma_in_page(self.ps(), p as int, 0);
                assert((at as int / self.ps()) < self.num_pages);
            }
            let len = self.page_len(p);
            let skip = match data_ranges {
                Some(ranges) => !backend::range_intersects(ranges, at, len),
                None => false,
            };
            proof {
                assert(len == old(self).len_of(p as int));
                assert(old(self).wanted(limit_bytes, None, p as int));
                assert(skip == !old(self).wanted(limit_bytes, view, p as int));
                assert(self.here(p as int) ==> old(self).here(p as int));
                assert(!old(self).evicts() && old(self).here(p as int) ==> self.here(p as int));
            }
            if skip {
                skipped = skipped + len;
            } else if !bitmap::bit_get(&self.present, p) {
                let ghost before = *self;
                let ghost had = *peers;
                assert(old(self).wanted(limit_bytes, view, p as int));
                let done = self.ensure_shared(p, peers);
                let ghost ready = *self;
                proof {
                    Self::lemma_agrees_kept(before, *self, had, *peers);
                    peers.lemma_failed(had, *old(peers));
                    old(self).lemma_fetched(before.inner.requests(), limit_bytes, view, p as int);
                    assert(before.fetch(p as int) == old(self).fetch(p as int));
                    if all {
                        assert(old(self).reaches(*old(peers), p as int));
                        Peers::lemma_same_has(
                            *old(peers),
                            had,
                            p,
                            old(self).len_of(p as int) as u64,
                        );
                        assert(before.reaches(had, p as int));
                    }
                }
                match done {
                    Ok(()) => {
                        warmed = warmed + len;
                        self.announce(p, len);
                        proof {
                            Self::lemma_agrees_kept(ready, *self, *peers, *peers);
                        }
                    },
                    Err(_) => {
                        failed = failed + len;
                    },
                }
                proof {
                    assert forall|q: int| 0 <= q && #[trigger] self.here(q) implies old(self).here(q)
                        || old(self).wanted(limit_bytes, view, q) by {
                        assert(ready.here(q));
                        if q != p {
                            assert(before.here(q));
                        }
                    }
                    if !old(self).evicts() {
                        assert forall|q: int| 0 <= q && #[trigger] old(self).here(q) implies self.here(
                            q,
                        ) by {
                            assert(before.here(q));
                            assert(ready.here(q));
                        }
                    }
                    assert forall|q: int| p + 1 <= q && #[trigger] self.here(q) implies old(self).here(
                        q,
                    ) by {
                        assert(ready.here(q));
                        assert(before.here(q));
                    }
                }
            }
            proof {
                assert((p + 1) * self.ps() == p * self.ps() + self.ps()) by (nonlinear_arith);
            }
            at = at + len;
            p = p + 1;
        }
        proof {
            old(self).lemma_tail(limit_bytes, view, p as int, old(self).page_total() as int);
            if !old(self).evicts() && failed == 0 {
                assert forall|q: int| 0 <= q && #[trigger] old(self).wanted(
                    limit_bytes,
                    view,
                    q,
                ) implies self.here(q) by {
                    if q >= p {
                        assert(q * self.page_size >= p * self.page_size) by (nonlinear_arith)
                            requires
                                q >= p,
                        ;
                    }
                }
            }
        }
        Warmup { warmed, skipped, failed }
    }

    /// Bring the pages that a change of `[offset, offset + len)` covers only in
    /// part into the data file, each from a live peer's copy or else from the
    /// inner backend.
    pub fn load_edges<P: BlobBackend>(&mut self, offset: u64, len: u64, peers: &mut Peers<P>) -> (r:
        Result<(), BackendError>)
        requires
            old(self).valid(),
            old(peers).valid(),
            old(self).agrees(*old(peers)),
        ensures
            final(self).ticks() <= old(self).ticks() + 4,
            final(self).undisturbed(*old(self)),
            final(self).orderly(*old(self)),
            final(self).valid(),
            final(self).bytes() == old(self).bytes(),
            final(self).durable() == old(self).durable(),
            old(self).faithful() ==> final(self).faithful(),
            forall|p: int| #[trigger] final(self).changed(p) == old(self).changed(p),
            final(self).agrees(*final(peers)),
            final(peers).valid(),
            final(peers).same_pages(*old(peers)),
            final(self).store().bytes() == old(self).store().bytes(),
            !old(self).evicts() && (offset % old(self).page_bytes() == 0 || old(self).reaches(
                *old(peers),
                offset as int / old(self).page_bytes() as int,
            )) && ((offset + len) % old(self).page_bytes() as int == 0 || offset + len
                == old(self).bytes().len() || old(self).reaches(
                *old(peers),
                (offset + len - 1) / old(self).page_bytes() as int,
            )) ==> final(self).store() == old(self).store() || final(peers).failed_since(*old(peers)),
            r is Ok && old(self).limits() ==> final(self).relieved(*old(self)) && (final(self).limits()
                || final(self).store_faults() > old(self).store_faults()),
            r is Err && old(self).even() && old(peers).even() ==> final(self).store_faults() > old(self).store_faults() || final(self).spent()
                || final(peers).failed_since(*old(peers)),
            offset + len > old(self).bytes().len() || len == 0 ==> r is Ok && *final(self) == *old(
                self,
            ),
            r is Ok && len > 0 && offset + len <= old(self).bytes().len() && (offset + len) % (
            old(self).page_bytes() as int) != 0 && offset + len < old(self).bytes().len()
                ==> final(self).here((offset + len - 1) / old(self).page_bytes() as int),
            r is Ok && len > 0 && offset + len <= old(self).bytes().len() && offset % old(
                self,
            ).page_bytes() != 0 && (!old(self).evicts() || (offset + len) % old(self).page_bytes() as int
                == 0 || offset + len == old(self).bytes().len()) ==> final(self).here(
                offset as int / old(self).page_bytes() as int,
            ),
    {
        proof {
            self.lemma_same_books(*old(self));
        }
        if len == 0 || offset > self.dev_size || len > self.dev_size - offset {
            return Ok(());
        }
        let end: u64 = offset + len;
        proof {
            lemma_page_count(self.dev_size as int, self.ps());
            assert((end - 1) / self.ps() < self.num_pages);
            assert((offset as int / self.ps()) < self.num_pages);
            pages::lemma_split(self.ps(), offset as int);
            pages::lemma_split(self.ps(), end - 1);
        }
        let first: u64 = offset / self.page_size;
        let last: u64 = (end - 1) / self.page_size;
        let ghost start = *self;
        let ghost had = *peers;
        if offset % self.page_size != 0 {
            let done = self.ensure_shared(first, peers);
            proof {
                Self::lemma_agrees_kept(start, *self, had, *peers);
            }
            match done {
                Ok(()) => {},
                Err(e) => {
                    return Err(e);
                },
            }
        }
        let ghost mid = *self;
        let ghost kept = *peers;
        proof {
            Peers::lemma_same_has(
                *old(peers),
                kept,
                last,
                old(self).len_of(last as int) as u64,
            );
            if !old(self).evicts() && old(self).here(last as int) {
                assert(mid.here(last as int));
            }
        }
        if end % self.page_size != 0 && end < self.dev_size {
            let done = self.ensure_shared(last, peers);
            proof {
                Self::lemma_agrees_kept(mid, *self, kept, *peers);
                peers.lemma_failed(kept, *old(peers));
                if done is Ok && old(self).bounded() {
                    self.lemma_relieved(mid, *old(self));
                }
            }
            match done {
                Ok(()) => {},
                Err(e) => {
                    return Err(e);
                },
            }
        }
        Ok(())
    }

    /// The failed requests of the three stores are counted together, and without a
    /// budget no clock can run out: over stores that never fail, only a request that is
    /// not in order fails.
    pub proof fn failures_come_from_the_stores(&self)
        ensures
            self.store_faults() == self.store().faults() + self.data_file().faults()
                + self.meta_file().faults(),
            self.spent() ==> self.budgeted() && self.ticks() == u64::MAX,
            self.wipes() == self.store().wipes(),
    {
    }

    /// Peers find no page on offer here that is not in the data file, or that was
    /// changed since it was fetched or flushed: what they read is what the inner
    /// backend holds.
    pub proof fn peers_read_clean_pages(&self, p: u64)
        requires
            self.valid(),
            self.faithful(),
            self.shown(p),
        ensures
            p < self.page_total(),
            self.here(p as int),
            !self.changed(p as int),
            forall|i: int|
                0 <= i < self.bytes().len() && i / self.page_bytes() as int == p
                    ==> #[trigger] self.bytes()[i] == self.store().bytes()[i],
    {
        assert(shown_in(self.index, p));
        assert forall|i: int|
            0 <= i < self.bytes().len() && i / self.page_bytes() as int == p implies #[trigger] self.bytes()[i]
            == self.store().bytes()[i] by {
            assert(self.bytes()[i] == self.byte_at(i));
            assert(self.here(i / self.ps()));
            assert(bitmap::bit(self.present@, i / self.ps()) && !bitmap::bit(self.dirty@, i / self.ps()));
            assert(self.data.bytes()[i] == self.inner.bytes()[i]);
        }
    }

    /// Whatever a crash leaves of the two files, a restart finds every dirty page that
    /// was saved: the metadata fits and names it, and the data file has its bytes.
    pub proof fn restart_finds_dirty_pages(&self, meta: Seq<u8>, data: Seq<u8>, p: int)
        requires
            self.valid(),
            backend::survives(self.meta_file(), meta),
            backend::survives(self.data_file(), data),
            0 <= p < self.page_total(),
            self.changed(p),
            !self.unsaved().contains(p as u64),
        ensures
            cache_meta::stored(
                meta,
                self.page_bytes(),
                self.bytes().len() as u64,
                self.page_total(),
            ) matches Ok((present, dirty)) && bitmap::bit(dirty, p) && bitmap::bit(present, p),
            data.len() == self.bytes().len(),
            forall|i: int|
                0 <= i < self.bytes().len() && i / self.page_bytes() as int == p
                    ==> #[trigger] data[i] == self.bytes()[i],
    {
        lemma_page_count(self.dev_size as int, self.ps());
        let h = self.head@;
        let n = self.bm();
        assert(self.saved(p));
        assert(bitmap::bit(self.dirty@, p));
        assert(self.here(p));
        assert(self.img().len() >= 64 + 2 * n);
        assert forall|i: int| 0 <= i < 12 || 16 <= i < 32 implies #[trigger] meta[i] == h[i] by {
            assert(backend::may_hold(self.meta, i, meta[i]));
        }
        lemma_fitting(meta, self.page_size, self.dev_size, self.num_pages);
        assert(backend::may_hold(self.meta, 64 + p / 8, meta[64 + p / 8]));
        assert(backend::may_hold(self.meta, 64 + n + p / 8, meta[64 + n + p / 8]));
        assert(meta.subrange(64, 64 + n)[p / 8] == meta[64 + p / 8]);
        assert(meta.subrange(64 + n, 64 + 2 * n)[p / 8] == meta[64 + n + p / 8]);
        assert forall|i: int|
            0 <= i < self.bytes().len() && i / self.page_bytes() as int == p implies #[trigger] data[i]
            == self.bytes()[i] by {
            assert(backend::may_hold(self.data, i, data[i]));
            assert(self.bytes()[i] == self.byte_at(i));
        }
    }

    /// A cache opened on what a crash left has every dirty page that was saved, with
    /// its bytes, and as dirty.
    pub proof fn reopening_restores_dirty_pages(
        &self,
        next: Self,
        recovered: u64,
        reason: Option<Reinit>,
        kept: bool,
        inner: Seq<u8>,
        data: Seq<u8>,
        meta: Seq<u8>,
        p: int,
    )
        requires
            self.valid(),
            backend::survives(self.meta_file(), meta),
            backend::survives(self.data_file(), data),
            0 <= p < self.page_total(),
            self.changed(p),
            !self.unsaved().contains(p as u64),
            next.opened_as(
                recovered,
                reason,
                kept,
                inner,
                data,
                meta,
                self.page_bytes(),
                self.bytes().len() as u64,
            ),
        ensures
            reason is None,
            next.here(p) && next.changed(p),
            forall|i: int|
                0 <= i < self.bytes().len() && i / self.page_bytes() as int == p
                    ==> #[trigger] next.bytes()[i] == self.bytes()[i],
    {
        self.restart_finds_dirty_pages(meta, data, p);
        assert(next.page_total() == self.page_total());
        assert forall|i: int|
            0 <= i < self.bytes().len() && i / self.page_bytes() as int == p implies #[trigger] next.bytes()[i]
            == self.bytes()[i] by {
            assert(data[i] == self.bytes()[i]);
        }
    }

    /// An acknowledged write survives a crash: a cache opened on what the crash left
    /// reads back what was written. `before` is the cache before the write, `self` the
    /// cache after it.
    pub proof fn an_acknowledged_write_survives(
        &self,
        before: Self,
        offset: u64,
        written: Seq<u8>,
        next: Self,
        recovered: u64,
        reason: Option<Reinit>,
        kept: bool,
        inner: Seq<u8>,
        data: Seq<u8>,
        meta: Seq<u8>,
    )
        requires
            self.valid(),
            self.same_setup(before),
            self.bytes() == backend::splice(before.bytes(), offset as int, written),
            0 < written.len(),
            offset + written.len() <= before.bytes().len(),
            self.dirtied(before, offset as int, written.len() as int, true),
            self.safe(offset as int, written.len() as int),
            backend::survives(self.meta_file(), meta),
            backend::survives(self.data_file(), data),
            next.opened_as(
                recovered,
                reason,
                kept,
                inner,
                data,
                meta,
                self.page_bytes(),
                self.bytes().len() as u64,
            ),
        ensures
            next.bytes().subrange(offset as int, offset + written.len()) == written,
    {
        let len = written.len() as int;
        let ps = self.ps();
        lemma_page_count(self.dev_size as int, ps);
        assert forall|i: int| offset <= i < offset + len implies #[trigger] next.bytes()[i] == written[i
            - offset] by {
            let p = i / ps;
            self.lemma_page_bytes(0, i);
            self.lemma_span(offset as int, len);
            assert(pages::covers(ps, offset as int, len, p));
            assert(self.changed(p));
            assert(!self.unsaved().contains(p as u64));
            self.reopening_restores_dirty_pages(
                next,
                recovered,
                reason,
                kept,
                inner,
                data,
                meta,
                p,
            );
        }
        assert(next.bytes().subrange(offset as int, offset + len) =~= written);
    }

    /// The metadata of a cache in order holds the bitmaps of its pages.
    pub proof fn filed_metadata_names_the_pages(&self)
        requires
            self.valid(),
            self.filed(),
        ensures
            cache_meta::stored(
                self.meta_file().bytes(),
                self.page_bytes(),
                self.bytes().len() as u64,
                self.page_total(),
            ) matches Ok((present, dirty)) && self.has_bits(present, dirty),
    {
        self.lemma_stored();
    }

    proof fn lemma_stored(&self)
        requires
            self.wf(),
            self.filed(),
        ensures
            cache_meta::stored(
                self.meta.bytes(),
                self.page_size,
                self.dev_size,
                self.num_pages,
            ) == Ok::<(Seq<u8>, Seq<u8>), Reinit>((self.present@, self.dirty@)),
    {
        wire::lemma_spans();
        wire::le_reads_back(cache_meta::VERSION as nat, 4);
        wire::le_reads_back(self.page_size as nat, 8);
        wire::le_reads_back(self.dev_size as nat, 8);
        let m = self.meta.bytes();
        let n = self.bm();
        assert(self.img().len() >= 64 + 2 * n);
        assert(m.subrange(64, 64 + n) =~= self.present@) by {
            assert forall|k: int| 0 <= k < n implies m[64 + k] == #[trigger] self.present@[k] by {
                self.lemma_filed_byte(k);
            }
        }
        assert(m.subrange(64 + n, 64 + 2 * n) =~= self.dirty@) by {
            assert forall|k: int| 0 <= k < n implies m[64 + n + k] == #[trigger] self.dirty@[k] by {
                self.lemma_filed_byte(k);
            }
        }
    }

    /// The books of a cache in order: the pages in the data file are those on account,
    /// and the clean ones those that may be dropped.
    pub proof fn tidy_books_match_the_pages(&self, p: u64)
        requires
            self.tidy(),
            self.budgeted(),
            !self.spent(),
        ensures
            self.accounted().contains(p) == (p < self.page_total() && self.here(p as int)),
            self.evictable(p) == (p < self.page_total() && self.here(p as int) && !self.changed(
                p as int,
            )),
    {
        reveal(books_match);
        assert(self.accounted().contains(p) == self.lru.stamps().contains_key(p));
    }

    proof fn lemma_count(&self, n: int)
        ensures
            self.count_dirty(n) == bitmap::count(self.dirty@, n),
        decreases n,
    {
        if n > 0 {
            self.lemma_count(n - 1);
        }
    }

    /// A cache whose files are in order, opened again on them, is the cache that it was:
    /// it can be used, reads the same, and has the same pages and dirty pages.
    pub proof fn reopening_gives_the_same_cache(
        &self,
        next: Self,
        recovered: u64,
        reason: Option<Reinit>,
        kept: bool,
    )
        requires
            self.valid(),
            self.filed(),
            next.opened_as(
                recovered,
                reason,
                kept,
                self.store().bytes(),
                self.data_file().bytes(),
                self.meta_file().bytes(),
                self.page_bytes(),
                self.bytes().len() as u64,
            ),
        ensures
            reason is None,
            next.valid(),
            next.bytes() == self.bytes(),
            recovered == self.count_dirty(self.page_total() as int),
            next.page_total() == self.page_total(),
            forall|p: int| 0 <= p ==> #[trigger] next.here(p) == self.here(p),
            forall|p: int| 0 <= p ==> #[trigger] next.changed(p) == self.changed(p),
    {
        self.lemma_stored();
        self.lemma_count(self.page_total() as int);
        assert(next.has_bits(self.present@, self.dirty@));
        assert forall|i: int| 0 <= i < self.bytes().len() implies #[trigger] next.bytes()[i]
            == self.bytes()[i] by {
            self.lemma_page_bytes_of(i);
            assert(next.here(i / self.ps()) == self.here(i / self.ps()));
            assert(self.bytes()[i] == self.byte_at(i));
        }
        assert(next.bytes() =~= self.bytes());
    }

    proof fn lemma_page_bytes_of(&self, i: int)
        requires
            self.wf(),
            0 <= i < self.dev_size,
        ensures
            0 <= i / self.ps(),
    {
        lemma_page_count(self.dev_size as int, self.ps());
        self.lemma_page_bytes(0, i);
    }

    /// Whatever a crash leaves of the metadata file of a cache in order, a cache opened
    /// on it finds the dirty pages, and no others dirty.
    pub proof fn a_crash_keeps_the_dirty_pages(
        &self,
        next: Self,
        recovered: u64,
        reason: Option<Reinit>,
        kept: bool,
        inner: Seq<u8>,
        data: Seq<u8>,
        meta: Seq<u8>,
    )
        requires
            self.valid(),
            self.pinned(),
            backend::survives(self.meta_file(), meta),
            next.opened_as(
                recovered,
                reason,
                kept,
                inner,
                data,
                meta,
                self.page_bytes(),
                self.bytes().len() as u64,
            ),
        ensures
            reason is None,
            recovered == self.count_dirty(self.page_total() as int),
            forall|p: int| 0 <= p ==> #[trigger] next.changed(p) == self.changed(p),
    {
        reveal(holds_firmly);
        let h = self.head@;
        let n = self.bm();
        assert(self.img().len() >= 64 + 2 * n);
        assert forall|i: int| 0 <= i < 12 || 16 <= i < 32 implies #[trigger] meta[i] == h[i] by {
            assert(backend::may_hold(self.meta, i, meta[i]));
        }
        lemma_fitting(meta, self.page_size, self.dev_size, self.num_pages);
        assert(meta.subrange(64 + n, 64 + 2 * n) =~= self.dirty@) by {
            assert forall|k: int| 0 <= k < n implies meta[64 + n + k] == #[trigger] self.dirty@[k] by {
                let i = 64 + n + k;
                assert(backend::may_hold(self.meta, i, meta[i]));
            }
        }
        self.lemma_count(self.page_total() as int);
        assert(next.page_total() == self.page_total());
        assert(next.has_bits(meta.subrange(64, 64 + n), self.dirty@));
    }

    /// A cache opened with another page size or device size on the metadata of this
    /// one is empty: none of its pages is dirty, so a flush writes none.
    pub proof fn other_sizes_start_empty(
        &self,
        next: Self,
        recovered: u64,
        reason: Option<Reinit>,
        kept: bool,
        inner: Seq<u8>,
        data: Seq<u8>,
        page_size: u64,
        dev_size: u64,
    )
        requires
            self.valid(),
            page_size != self.page_bytes() || dev_size != self.bytes().len(),
            next.opened_as(
                recovered,
                reason,
                kept,
                inner,
                data,
                self.meta_file().bytes(),
                page_size,
                dev_size,
            ),
        ensures
            reason is Some,
            recovered == 0,
            next.has_no_pages(),
            next.bytes() == backend::prefix(inner, dev_size as int),
            next.count_dirty(next.page_total() as int) == 0,
            next.write_backs(next.page_total() as int) == Seq::<Request>::empty(),
    {
        wire::lemma_spans();
        wire::le_reads_back(self.page_size as nat, 8);
        wire::le_reads_back(self.dev_size as nat, 8);
        next.lemma_none_dirty(next.page_total() as int);
    }

    proof fn lemma_none_dirty(&self, n: int)
        ensures
            self.has_no_pages() ==> self.count_dirty(n) == 0 && self.write_backs(n) == Seq::<
                Request,
            >::empty(),
        decreases n,
    {
        if n > 0 {
            self.lemma_none_dirty(n - 1);
            assert(self.has_no_pages() ==> !self.here(n - 1) && !self.changed(n - 1));
        }
    }

    /// Bytes of resident pages, while a budget is active.
    pub fn resident_bytes(&self) -> (r: u64)
        ensures
            r == self.resident_total(),
            self.valid() && self.budgeted() ==> r == booked_bytes(
                self.accounted(),
                self.bytes().len() as int,
                self.page_bytes() as int,
                self.page_total() as int,
            ) && forall|p: u64| #[trigger]
                self.accounted().contains(p) ==> p < self.page_total() && self.here(p as int),
    {
        proof {
            if self.wf() && self.budget is Some {
                assert forall|p: u64| #[trigger] self.accounted().contains(p) implies p
                    < self.page_total() && self.here(p as int) by {
                    assert(self.lru.stamps().contains_key(p));
                }
            }
        }
        self.resident
    }
}

/// Metadata with the header's fields in their places is used.
proof fn lemma_fitting(m: Seq<u8>, page_size: u64, dev_size: u64, num_pages: u64)
    requires
        m.len() >= cache_meta::image_len(num_pages as int),
        forall|i: int|
            0 <= i < 12 || 16 <= i < 32 ==> #[trigger] m[i] == cache_meta::header(
                page_size,
                dev_size,
                num_pages,
            )[i],
    ensures
        ({
            let n = bitmap::bytes_for(num_pages as int);
            cache_meta::stored(m, page_size, dev_size, num_pages) == Ok::<
                (Seq<u8>, Seq<u8>),
                Reinit,
            >((m.subrange(64, 64 + n), m.subrange(64 + n, 64 + 2 * n)))
        }),
{
    let h = cache_meta::header(page_size, dev_size, num_pages);
    cache_meta::lemma_header(page_size, dev_size, num_pages);
    wire::lemma_spans();
    wire::le_reads_back(cache_meta::VERSION as nat, 4);
    wire::le_reads_back(page_size as nat, 8);
    wire::le_reads_back(dev_size as nat, 8);
    assert(m.subrange(0, 8) =~= h.subrange(0, 8));
    assert(m.subrange(8, 12) =~= h.subrange(8, 12));
    assert(m.subrange(16, 24) =~= h.subrange(16, 24));
    assert(m.subrange(24, 32) =~= h.subrange(24, 32));
}

/// How far a request for `[offset, offset + len)`, of which `pos` bytes are done, goes on
/// inside the page that comes next.
#[verifier::rlimit(40)]
fn next_piece(page_size: u64, offset: u64, len: u64, pos: u64) -> (r: u64)
    requires
        page_size > 0,
        page_size % 512 == 0,
        pos < len,
        offset + len <= u64::MAX,
    ensures
        0 < r <= len - pos,
        (offset + pos) % page_size as int + r <= page_size,
        r == pages::piece(page_size as int, offset as int, len as int, pos as int),
        pos + r == len || (offset + pos + r) % page_size as int == 0,
        buffered::range_aligned(offset, len) && pos % 512 == 0 ==> r % 512 == 0 && (pos + r) % 512
            == 0,
{
    let at: u64 = offset + pos;
    let p: u64 = at / page_size;
    let in_page: u64 = at % page_size;
    let r: u64 = if page_size - in_page < len - pos {
        page_size - in_page
    } else {
        len - pos
    };
    proof {
        pages::lemma_split(page_size as int, at as int);
        if at % 512 == 0 {
            pages::lemma_piece_aligned(page_size as int, at as int);
        }
        if pos + r < len {
            assert(at + r == (p + 1) * page_size) by (nonlinear_arith)
                requires
                    at == p * page_size + in_page,
                    r == page_size - in_page,
            ;
            pages::lemma_in_page(page_size as int, p + 1, 0);
        }
    }
    r
}

/// The bytes of the metadata file, which is padded with zeros to whole 512-byte blocks
/// first where it ends inside one.
fn whole_blocks<M: BlobBackend>(meta: &mut M) -> (r: Result<Vec<u8>, BackendError>)
    requires
        old(meta).valid(),
    ensures
        final(meta).faults() >= old(meta).faults(),
        r matches Ok(text) ==> {
            &&& final(meta).valid()
            &&& text@ == old(meta).bytes()
            &&& final(meta).bytes().len() % 512 == 0
            &&& final(meta).bytes().len() >= text@.len()
            &&& final(meta).bytes().take(text@.len() as int) == text@
            &&& backend::settled(*old(meta)) ==> backend::settled(*final(meta))
        },
        r is Err && (old(meta).bytes().len() % 512 == 0 || old(meta).bytes().len() + 512
            <= usize::MAX) ==> final(meta).faults() > old(meta).faults(),
{
    let len = match meta.size() {
        Ok(len) => len,
        Err(e) => {
            return Err(e);
        },
    };
    let mut whole: u64 = len;
    if len % 512 != 0 {
        if len > u64::MAX - 512 {
            return Err(BackendError::TooLarge { size: len });
        }
        whole = len / 512 * 512 + 512;
        match meta.resize(whole) {
            Ok(()) => {},
            Err(e) => {
                return Err(e);
            },
        }
        match meta.flush() {
            Ok(()) => {},
            Err(e) => {
                return Err(e);
            },
        }
    }
    let text = match meta.read(0, whole) {
        Ok(text) => text,
        Err(e) => {
            return Err(e);
        },
    };
    if text.len() as u64 != whole {
        return Err(BackendError::ShortRead { offset: 0, expected: whole, got: text.len() as u64 });
    }
    assert(text@ =~= meta.bytes());
    assert(meta.bytes().take(len as int) =~= old(meta).bytes());
    if len == whole {
        return Ok(text);
    }
    let found = pages::copy_range(&text, 0, len as usize);
    assert(found@ =~= old(meta).bytes());
    Ok(found)
}

/// Number of pages of `page_size` bytes that cover `dev_size` bytes.
fn pages_for(dev_size: u64, page_size: u64) -> (r: u64)
    requires
        dev_size > 0,
        page_size > 0,
    ensures
        r == page_count(dev_size as int, page_size as int),
{
    let q: u64 = dev_size / page_size;
    proof {
        pages::lemma_split(page_size as int, dev_size as int);
        lemma_page_count(dev_size as int, page_size as int);
        let m = dev_size as int % page_size as int;
        if m == 0 {
            pages::lemma_in_page(page_size as int, q as int, page_size - 1);
            assert(dev_size + page_size - 1 == q * page_size + (page_size - 1));
        } else {
            assert((q + 1) * page_size == q * page_size + page_size) by (nonlinear_arith);
            pages::lemma_in_page(page_size as int, q + 1, m - 1);
            assert(dev_size + page_size - 1 == (q + 1) * page_size + (m - 1));
        }
    }
    if dev_size % page_size == 0 {
        q
    } else {
        q + 1
    }
}

impl<B: BlobBackend, D: BlobBackend, M: BlobBackend> BlobBackend for FileCacheBackend<B, D, M> {
    closed spec fn bytes(&self) -> Seq<u8> {
        Seq::new(self.dev_size as nat, |i: int| self.byte_at(i))
    }

    closed spec fn durable(&self) -> Seq<u8> {
        backend::prefix(self.inner.durable(), self.dev_size as int)
    }

    closed spec fn valid(&self) -> bool {
        self.wf()
    }

    closed spec fn requests(&self) -> Seq<Request> {
        self.asked@
    }

    closed spec fn wipes(&self) -> bool {
        self.inner.wipes()
    }

    /// What the inner backend may come to hold, and what it has been given.
    closed spec fn afloat(&self, i: int, b: u8) -> bool {
        self.inner.afloat(i, b) || b == self.inner.bytes()[i]
    }

    closed spec fn gone(&self) -> bool {
        self.inner.gone()
    }

    closed spec fn faults(&self) -> nat {
        self.store_faults() + self.declined@
    }

    fn create(&mut self, size: u64) -> (r: Result<(), BackendError>)
        ensures
            r is Ok ==> final(self).filed() && final(self).pinned() && final(self).tidy(),
            r is Ok ==> final(self).same_setup(*old(self)) && final(self).even(),
            size == 0 || size % 512 != 0 ==> (r matches Err(BackendError::BadConfig { name, value })
                && name@ == "size"@ && value == size) && final(self).untouched(*old(self)),
            r is Ok ==> final(self).store().bytes() == final(self).bytes() && final(self).unsaved()
                == Set::<u64>::empty(),
            r is Ok ==> forall|p: int|
                #![trigger final(self).here(p)]
                #![trigger final(self).changed(p)]
                !final(self).here(p) && !final(self).changed(p),
            r is Err && backend::fair_size(size) ==> final(self).store_faults() > old(self).store_faults(),
            r is Ok && old(self).store().wipes() ==> final(self).bytes() == backend::zeros(size as nat),
    {
        if size == 0 || size % 512 != 0 {
            self.note(Ghost(Request::Create { size }));
            return Err(BackendError::BadConfig { name: "size".to_owned(), value: size });
        }
        match self.inner.create(size) {
            Ok(()) => {},
            Err(e) => {
                self.note(Ghost(Request::Create { size }));
                return Err(e);
            },
        }
        let r = self.reinit(size);
        self.note(Ghost(Request::Create { size }));
        r
    }

    fn read(&mut self, offset: u64, len: u64) -> (r: Result<Vec<u8>, BackendError>)
        ensures
            final(self).ticks() <= old(self).ticks() + len,
            final(self).orderly(*old(self)),
            final(self).undisturbed(*old(self)),
            final(self).unsaved() == old(self).unsaved(),
            old(self).faithful() ==> final(self).faithful(),
            final(self).store_faults() >= old(self).store_faults(),
            final(self).page_bytes() == old(self).page_bytes(),
            final(self).page_total() == old(self).page_total(),
            forall|p: int| #[trigger] final(self).here(p) == old(self).here(p),
            forall|p: int| #[trigger] final(self).changed(p) == old(self).changed(p),
            len == 0 ==> (r matches Ok(d) && d@.len() == 0),
            len > 0 && !buffered::range_aligned(offset, len) ==> r == Err::<Vec<u8>, BackendError>(
                BackendError::UnalignedRange { op: Op::Read, offset, len },
            ),
            len > 0 && buffered::range_aligned(offset, len) && offset + len > old(self).bytes().len()
                ==> (r matches Err(e) && buffered::out_of_range(
                Op::Read,
                offset,
                len,
                old(self).bytes().len() as u64,
                e,
            )),
            r is Ok && len > 0 ==> buffered::range_aligned(offset, len) && r->Ok_0@.len() == len,
            r is Ok && old(self).budgeted() ==> final(self).used(*old(self), offset as int, len as int),
            r is Err && old(self).even() && backend::fair_range(
                offset as int,
                len as int,
                old(self).bytes().len() as int,
            ) ==> final(self).store_faults() > old(self).store_faults() || final(self).spent(),
            (forall|i: int|
                offset <= i < offset + len ==> old(self).here(
                    #[trigger] (i / old(self).page_bytes() as int),
                )) ==> final(self).store() == old(self).store(),
            final(self).store().bytes() == old(self).store().bytes(),
            r is Ok ==> final(self).store().requests() == old(self).store().requests()
                + old(self).misses(offset as int, len as int, 0),
    {
        if len == 0 {
            assert(self.inner.requests() + self.misses(offset as int, 0, 0) =~= self.inner.requests());
            self.note(Ghost(Request::Read { offset, len }));
            return Ok(Vec::new());
        }
        if offset % 512 != 0 || len % 512 != 0 {
            self.note(Ghost(Request::Read { offset, len }));
            return Err(BackendError::UnalignedRange { op: Op::Read, offset, len });
        }
        match check_in_bounds(Op::Read, offset, len, self.dev_size) {
            Ok(()) => {},
            Err(e) => {
                self.note(Ghost(Request::Read { offset, len }));
                return Err(e);
            },
        }
        let page_size: u64 = self.page_size;
        let mut out: Vec<u8> = Vec::new();
        let mut pos: u64 = 0;
        while pos < len
            invariant
                self.wf(),
                self.bytes() == old(self).bytes(),
                self.durable() == old(self).durable(),
                old(self).faithful() ==> self.faithful(),
                self.grows(*old(self)),
                pos % 512 == 0,
                self.present == old(self).present,
                self.dirty == old(self).dirty,
                self.unsaved == old(self).unsaved,
                self.dev_size == old(self).dev_size,
                self.num_pages == old(self).num_pages,
                self.page_size == old(self).page_size,
                page_size == self.page_size,
                pos <= len,
                offset + len <= self.dev_size,
                buffered::range_aligned(offset, len),
                out@ == self.bytes().subrange(offset as int, offset + pos),
                (forall|i: int|
                    offset <= i < offset + len ==> old(self).here(
                        #[trigger] (i / old(self).page_bytes() as int),
                    )) ==> self.inner == old(self).inner,
                self.lru.clock() <= old(self).lru.clock() + pos,
                self.inner.requests() + old(self).misses(offset as int, len as int, pos as int) == old(
                    self,
                ).inner.requests() + old(self).misses(offset as int, len as int, 0),
                self.budget is Some == old(self).budget is Some,
                pos == 0 || pos == len || (offset + pos) % page_size as int == 0,
                self.budget is Some ==> self.used(*old(self), offset as int, pos as int),
            decreases len - pos,
        {
            let ghost before = *self;
            let next = self.read_next(offset, len, pos, &mut out, Ghost(*old(self)));
            proof {
                let at = offset + pos;
                assert(offset <= at < offset + len);
                let q = at / old(self).page_bytes() as int;
                assert(before.here(q) == old(self).here(q));
                if next is Ok {
                    let n = next->Ok_0;
                    assert(self.inner.requests() + old(self).misses(
                        offset as int,
                        len as int,
                        pos + n,
                    ) =~= before.inner.requests() + old(self).misses(
                        offset as int,
                        len as int,
                        pos as int,
                    ));
                }
            }
            match next {
                Ok(chunk) => {
                    pos = pos + chunk;
                },
                Err(e) => {
                    self.decline();
                    self.note(Ghost(Request::Read { offset, len }));
                    return Err(e);
                },
            }
        }
        assert(self.inner.requests() + old(self).misses(offset as int, len as int, len as int)
            =~= self.inner.requests());
        self.note(Ghost(Request::Read { offset, len }));
        Ok(out)
    }

    fn write(&mut self, offset: u64, data: &Vec<u8>) -> (r: Result<(), BackendError>)
        ensures
            final(self).ticks() <= old(self).ticks() + 4 * data@.len(),
            final(self).orderly(*old(self)),
            final(self).same_setup(*old(self)),
            final(self).page_total() == old(self).page_total(),
            final(self).even() == old(self).even(),
            final(self).durable() == old(self).durable(),
            old(self).faithful() ==> final(self).faithful(),
            data@.len() == 0 ==> r is Ok && final(self).untouched(*old(self)),
            data@.len() > 0 && !buffered::range_aligned(offset, data@.len() as u64) ==> r == Err::<
                (),
                BackendError,
            >(BackendError::UnalignedRange { op: Op::Write, offset, len: data@.len() as u64 })
                && final(self).untouched(*old(self)),
            data@.len() > 0 && buffered::range_aligned(offset, data@.len() as u64) && offset + data@.len()
                > old(self).bytes().len() ==> (r matches Err(e) && buffered::out_of_range(
                Op::Write,
                offset,
                data@.len() as u64,
                old(self).bytes().len() as u64,
                e,
            )) && final(self).untouched(*old(self)),
            r is Ok ==> final(self).unsaved().subset_of(old(self).unsaved()) && final(self).safe(
                offset as int,
                data@.len() as int,
            ),
            r is Ok && old(self).limits() ==> final(self).relieved(*old(self)) && (final(self).limits()
                || final(self).store_faults() > old(self).store_faults()),
            r is Ok && data@.len() > 0 ==> buffered::range_aligned(offset, data@.len() as u64),
            final(self).dirtied(*old(self), offset as int, data@.len() as int, r is Ok),
            r is Err && old(self).even() && backend::fair_range(
                offset as int,
                data@.len() as int,
                old(self).bytes().len() as int,
            ) ==> final(self).store_faults() > old(self).store_faults() || final(self).spent(),
            final(self).store().bytes() == old(self).store().bytes(),
            old(self).overwrites(offset as int, data@.len() as int) ==> final(self).store()
                == old(self).store(),
            final(self).loads(*old(self), offset as int, data@.len() as int),
    {
        if data.len() == 0 {
            proof {
                self.lemma_same_books(*old(self));
            }
            assert(backend::splice(self.bytes(), offset as int, data@) =~= self.bytes());
            self.note(Ghost(Request::Write { offset, data: data@ }));
            return Ok(());
        }
        let len: u64 = data.len() as u64;
        if offset % 512 != 0 || len % 512 != 0 {
            self.note(Ghost(Request::Write { offset, data: data@ }));
            return Err(BackendError::UnalignedRange { op: Op::Write, offset, len });
        }
        match check_in_bounds(Op::Write, offset, len, self.dev_size) {
            Ok(()) => {},
            Err(e) => {
                self.note(Ghost(Request::Write { offset, data: data@ }));
                return Err(e);
            },
        }
        assert(buffered::contents(Some(data), len) == data@);
        let r = self.put(offset, len, Some(data));
        if r.is_err() {
            self.decline();
        }
        self.note(Ghost(Request::Write { offset, data: data@ }));
        r
    }

    fn clear(&mut self, offset: u64, len: u64) -> (r: Result<(), BackendError>)
        ensures
            final(self).ticks() <= old(self).ticks() + 4 * len,
            final(self).orderly(*old(self)),
            final(self).same_setup(*old(self)),
            final(self).page_total() == old(self).page_total(),
            final(self).even() == old(self).even(),
            final(self).durable() == old(self).durable(),
            old(self).faithful() ==> final(self).faithful(),
            len == 0 ==> r is Ok && final(self).untouched(*old(self)),
            len > 0 && !buffered::range_aligned(offset, len) ==> r == Err::<(), BackendError>(
                BackendError::UnalignedRange { op: Op::Clear, offset, len },
            ) && final(self).untouched(*old(self)),
            len > 0 && buffered::range_aligned(offset, len) && offset + len > old(self).bytes().len()
                ==> (r matches Err(e) && buffered::out_of_range(
                Op::Clear,
                offset,
                len,
                old(self).bytes().len() as u64,
                e,
            )) && final(self).untouched(*old(self)),
            r is Ok ==> final(self).unsaved().subset_of(old(self).unsaved()) && final(self).safe(
                offset as int,
                len as int,
            ),
            r is Ok && old(self).limits() ==> final(self).relieved(*old(self)) && (final(self).limits()
                || final(self).store_faults() > old(self).store_faults()),
            r is Ok && len > 0 ==> buffered::range_aligned(offset, len),
            final(self).dirtied(*old(self), offset as int, len as int, r is Ok),
            r is Err && old(self).even() && backend::fair_range(
                offset as int,
                len as int,
                old(self).bytes().len() as int,
            ) ==> final(self).store_faults() > old(self).store_faults() || final(self).spent(),
            final(self).store().bytes() == old(self).store().bytes(),
            old(self).overwrites(offset as int, len as int) ==> final(self).store()
                == old(self).store(),
            final(self).loads(*old(self), offset as int, len as int),
    {
        if len == 0 {
            proof {
                self.lemma_same_books(*old(self));
            }
            assert(backend::splice(self.bytes(), offset as int, backend::zeros(0)) =~= self.bytes());
            self.note(Ghost(Request::Clear { offset, len }));
            return Ok(());
        }
        if offset % 512 != 0 || len % 512 != 0 {
            self.note(Ghost(Request::Clear { offset, len }));
            return Err(BackendError::UnalignedRange { op: Op::Clear, offset, len });
        }
        match check_in_bounds(Op::Clear, offset, len, self.dev_size) {
            Ok(()) => {},
            Err(e) => {
                self.note(Ghost(Request::Clear { offset, len }));
                return Err(e);
            },
        }
        let r = self.put(offset, len, None);
        if r.is_err() {
            self.decline();
        }
        self.note(Ghost(Request::Clear { offset, len }));
        r
    }

    fn discard(&mut self, offset: u64, len: u64) -> (r: Result<(), BackendError>)
        ensures
            final(self).orderly(*old(self)),
            final(self).undisturbed(*old(self)),
            r == Err::<(), BackendError>(BackendError::Unsupported),
    {
        self.decline();
        self.note(Ghost(Request::Discard { offset, len }));
        Err(BackendError::Unsupported)
    }

    fn flush(&mut self) -> (r: Result<(), BackendError>)
        ensures
            final(self).ticks() <= old(self).ticks() + old(self).page_total(),
            r is Ok && old(self).filed() ==> final(self).filed(),
            final(self).orderly(*old(self)),
            final(self).same_setup(*old(self)),
            final(self).page_total() == old(self).page_total(),
            final(self).even() == old(self).even(),
            r is Ok ==> backend::prefix(
                final(self).store().bytes(),
                final(self).bytes().len() as int,
            ) == final(self).bytes(),
            r is Ok ==> forall|p: int| 0 <= p < final(self).page_total() ==> !#[trigger] final(self).changed(p),
            r is Ok ==> final(self).store().requests() == (old(self).store().requests()
                + old(self).write_backs(old(self).page_total() as int)).push(Request::Flush),
            r is Ok && old(self).sharing() is Some ==> forall|p: u64|
                p < old(self).page_total() && old(self).changed(p as int)
                    ==> #[trigger] final(self).shown(p),
            final(self).unsaved().subset_of(old(self).unsaved()),
            old(self).faithful() ==> final(self).faithful(),
            r is Err && old(self).even() ==> final(self).store_faults()
                > old(self).store_faults(),
    {
        let n: u64 = self.num_pages;
        let mut p: u64 = 0;
        while p < n
            invariant
                p <= n,
                n == self.num_pages,
                self.wf(),
                self.grew(*old(self)),
                old(self).wf(),
                backend::drifted(self.inner, old(self).inner, old(self).bytes(), old(self).bytes()),
                self.dev_size == old(self).dev_size,
                old(self).faithful() ==> self.faithful(),
                self.bytes() == old(self).bytes(),
                self.unsaved@.subset_of(old(self).unsaved@),
                self.lru.clock() <= old(self).lru.clock() + p,
                old(self).filed() ==> self.filed(),
                forall|q: int| 0 <= q < p ==> !#[trigger] self.changed(q),
                forall|q: int| p <= q ==> #[trigger] self.changed(q) == old(self).changed(q),
                self.inner.requests() =~= old(self).inner.requests() + old(self).write_backs(p as int),
                self.inner.bytes().len() == old(self).inner.bytes().len(),
                self.page_size == old(self).page_size,
                old(self).index is Some ==> forall|q: u64|
                    q < p && old(self).changed(q as int) ==> #[trigger] self.shown(q),
                n == old(self).num_pages,
            decreases n - p,
        {
            let ghost before = *self;
            let flushed = self.flush_page(p);
            proof {
                backend::drifts_add_up(
                    self.inner,
                    before.inner,
                    old(self).inner,
                    before.bytes(),
                    old(self).bytes(),
                    old(self).bytes(),
                );
                backend::a_drift_shows(
                    self.inner,
                    old(self).inner,
                    old(self).bytes(),
                    old(self).bytes(),
                );
            }
            match flushed {
                Ok(()) => {},
                Err(e) => {
                    self.decline();
                    self.note(Ghost(Request::Flush));
                    return Err(e);
                },
            }
            proof {
                assert(before.changed(p as int) == old(self).changed(p as int));
                assert(before.write_back(p as int) == old(self).write_back(p as int));
                assert forall|q: u64|
                    old(self).index is Some && q < p + 1 && old(self).changed(q as int)
                    implies #[trigger] self.shown(q) by {
                    if q < p {
                        assert(before.shown(q));
                    }
                }
                assert forall|q: int| p + 1 <= q implies #[trigger] self.changed(q) == old(self).changed(
                    q,
                ) by {
                    assert(before.changed(q) == old(self).changed(q));
                }
                assert forall|q: int| 0 <= q < p + 1 implies !#[trigger] self.changed(q) by {
                    if q < p {
                        assert(!before.changed(q));
                    }
                }
            }
            p = p + 1;
        }
        let ghost flushed = *self;
        proof {
            self.lemma_clean_is_inner();
        }
        let r = self.inner.flush();
        proof {
            backend::a_change_drifts(self.inner, flushed.inner, flushed.inner.bytes());
            backend::drifts_add_up(
                self.inner,
                flushed.inner,
                old(self).inner,
                flushed.inner.bytes(),
                old(self).bytes(),
                old(self).bytes(),
            );
            backend::a_drift_shows(
                self.inner,
                old(self).inner,
                old(self).bytes(),
                old(self).bytes(),
            );
            assert(self.lru_ok()) by {
                assert forall|q: u64| self.budget is Some && #[trigger] self.lru.clean().contains(q)
                    implies q < self.num_pages && self.here(q as int) && !self.changed(q as int) by {
                    assert(flushed.lru.clean().contains(q));
                    assert(flushed.here(q as int) && !flushed.changed(q as int));
                }
            }
            Self::lemma_wf_same(flushed, *self);
            assert forall|q: int| 0 <= q < self.page_total() implies !#[trigger] self.changed(q) by {
                assert(!flushed.changed(q));
            }
        }
        if r.is_err() {
            self.decline();
        }
        self.note(Ghost(Request::Flush));
        proof {
            assert forall|p: u64|
                old(self).index is Some && p < old(self).page_total() && old(self).changed(p as int)
                implies #[trigger] self.shown(p) by {
                assert(flushed.shown(p));
            }
        }
        r
    }

    fn resize(&mut self, new_size: u64) -> (r: Result<(), BackendError>)
        ensures
            r == Err::<(), BackendError>(BackendError::Unsupported),
            final(self).untouched(*old(self)),
    {
        self.decline();
        self.note(Ghost(Request::Resize { new_size }));
        Err(BackendError::Unsupported)
    }

    fn delete(&mut self) -> (r: Result<(), BackendError>)
        ensures
            forall|p: int|
                #![trigger final(self).here(p)]
                #![trigger final(self).changed(p)]
                !final(self).here(p) && !final(self).changed(p),
            r is Err ==> final(self).store().faults() > old(self).store().faults(),
            final(self).store().requests() == old(self).store().requests().push(Request::Delete),
            final(self).resident_total() == 0,
            final(self).accounted() == Set::<u64>::empty(),
            forall|p: u64| !#[trigger] final(self).shown(p),
            old(self).allowance() matches Some(b) ==> (final(self).allowance() matches Some(c)
                && c.settled(*b, 0)),
    {
        let n: usize = self.present.len();
        self.present = pages::zero_bytes(n);
        self.dirty = pages::zero_bytes(n);
        proof {
            bitmap::lemma_no_bits(self.present@);
            bitmap::lemma_no_bits(self.dirty@);
        }
        self.forget_accounts();
        let r = self.inner.delete();
        self.note(Ghost(Request::Delete));
        r
    }

    fn size(&mut self) -> (r: Result<u64, BackendError>)
        ensures
            r is Ok,
            final(self).untouched(*old(self)),
    {
        self.note(Ghost(Request::Size));
        Ok(self.dev_size)
    }

    fn snapshot(&mut self) -> (r: Result<String, BackendError>)
        ensures
            r == Err::<String, BackendError>(BackendError::Unsupported),
            final(self).untouched(*old(self)),
    {
        self.note(Ghost(Request::Snapshot { id: None }));
        Err(BackendError::Unsupported)
    }
}

// ── What the rules come to ──────────────────────────────────────────────────

/// A device has the fewest pages that cover it; each is a whole page but the last,
/// which ends where the device ends.
pub proof fn pages_cover_the_device_exactly(dev_size: int, page_size: int, p: int)
    requires
        dev_size > 0,
        page_size > 0,
        0 <= p < page_count(dev_size, page_size),
    ensures
        page_count(dev_size, page_size) * page_size >= dev_size,
        (page_count(dev_size, page_size) - 1) * page_size < dev_size,
        0 < page_span(dev_size, page_size, p) <= page_size,
        p * page_size + page_span(dev_size, page_size, p) <= dev_size,
        p + 1 < page_count(dev_size, page_size) ==> page_span(dev_size, page_size, p) == page_size,
        p + 1 == page_count(dev_size, page_size) ==> p * page_size + page_span(
            dev_size,
            page_size,
            p,
        ) == dev_size,
{
    let n = page_count(dev_size, page_size);
    lemma_page_count(dev_size, page_size);
    pages::lemma_split(page_size, dev_size + page_size - 1);
    assert((p * page_size) < dev_size);
    assert(((n - 1) * page_size) < dev_size);
    assert((n - 1) * page_size == n * page_size - page_size) by (nonlinear_arith);
    if p + 1 < n {
        assert(((p + 1) * page_size) < dev_size);
        assert((p + 1) * page_size == p * page_size + page_size) by (nonlinear_arith);
    }
}

/// What is booked grows by each page that is held, by the length of that page.
pub proof fn bytes_are_booked_page_by_page(
    held: Set<u64>,
    dev_size: int,
    page_size: int,
    n: int,
)
    requires
        n >= 0,
    ensures
        booked_bytes(held, dev_size, page_size, 0) == 0,
        held.contains(n as u64) ==> booked_bytes(held, dev_size, page_size, n + 1) == booked_bytes(
            held,
            dev_size,
            page_size,
            n,
        ) + page_span(dev_size, page_size, n),
        !held.contains(n as u64) ==> booked_bytes(held, dev_size, page_size, n + 1) == booked_bytes(
            held,
            dev_size,
            page_size,
            n,
        ),
{
}

/// The requests for a page name its place and its length: it is fetched whole, kept
/// as the device shows it (a page of zeros as a hole), and written back as the device
/// shows it.
pub proof fn a_page_is_moved_whole<B: BlobBackend, D: BlobBackend, M: BlobBackend>(
    c: FileCacheBackend<B, D, M>,
    p: int,
)
    requires
        c.page_bytes() > 0,
        0 <= p,
        p * c.page_bytes() < c.bytes().len() <= u64::MAX,
    ensures
        0 < c.len_of(p) <= c.page_bytes(),
        p * c.page_bytes() + c.len_of(p) <= c.bytes().len(),
        c.len_of(p) == c.page_bytes() || p * c.page_bytes() + c.len_of(p) == c.bytes().len(),
        c.fetch(p) matches Request::Read { offset, len } && offset == p * c.page_bytes() && len
            == c.len_of(p),
        c.write_back(p) matches Request::Write { offset, data } && offset == p * c.page_bytes() && data
            == c.bytes().subrange(p * c.page_bytes(), p * c.page_bytes() + c.len_of(p)),
        (forall|j: int| 0 <= j < c.len_of(p) ==> #[trigger] c.bytes()[p * c.page_bytes() + j] == 0)
            ==> (c.keep(p) matches Request::Clear { offset, len } && offset == p * c.page_bytes()
            && len == c.len_of(p)),
        (exists|j: int| 0 <= j < c.len_of(p) && #[trigger] c.bytes()[p * c.page_bytes() + j] != 0)
            ==> (c.keep(p) matches Request::Write { offset, data } && offset == p * c.page_bytes()
            && data == c.bytes().subrange(p * c.page_bytes(), p * c.page_bytes() + c.len_of(p))),
{
    let at = p * c.page_bytes();
    assert(0 <= at) by (nonlinear_arith)
        requires
            at == p * c.page_bytes(),
            0 <= p,
            0 < c.page_bytes(),
    ;
    let page = c.bytes().subrange(at, at + c.len_of(p));
    if forall|j: int| 0 <= j < c.len_of(p) ==> #[trigger] c.bytes()[at + j] == 0 {
        assert forall|j: int| 0 <= j < page.len() implies #[trigger] page[j] == 0 by {
            assert(c.bytes()[at + j] == 0);
        }
        assert(page =~= backend::zeros(c.len_of(p) as nat));
    }
    if exists|j: int| 0 <= j < c.len_of(p) && #[trigger] c.bytes()[at + j] != 0 {
        let j = choose|j: int| 0 <= j < c.len_of(p) && #[trigger] c.bytes()[at + j] != 0;
        assert(page[j] == c.bytes()[at + j]);
        assert(page != backend::zeros(c.len_of(p) as nat));
    }
}

/// The inner backend is asked only for what is not in the data file: for nothing
/// where every page of a request is in it, and otherwise for pieces of the request
/// that lie in pages which are not.
pub proof fn only_missing_pages_are_asked_for<B: BlobBackend, D: BlobBackend, M: BlobBackend>(
    c: FileCacheBackend<B, D, M>,
    offset: int,
    len: int,
    pos: int,
)
    requires
        c.page_bytes() > 0,
        0 <= offset,
        0 <= pos <= len,
        offset + len <= u64::MAX,
    ensures
        (forall|i: int|
            offset <= i < offset + len ==> c.here(#[trigger] (i / c.page_bytes() as int)))
            ==> c.misses(offset, len, pos) == Seq::<Request>::empty(),
        pos < len && !c.here((offset + pos) / c.page_bytes() as int) && (offset + pos)
            % c.page_bytes() as int + (len - pos) <= c.page_bytes() ==> c.misses(offset, len, pos)
            == seq![Request::Read { offset: (offset + pos) as u64, len: (len - pos) as u64 }],
        forall|k: int|
            0 <= k < c.misses(offset, len, pos).len() ==> (#[trigger] c.misses(offset, len, pos)[k]
                matches Request::Read { offset: at, len: n } && offset + pos <= at && at + n <= offset
                + len && 0 < n <= c.page_bytes() && !c.here(at as int / c.page_bytes() as int)),
    decreases len - pos,
{
    let ps = c.page_bytes() as int;
    if pos < len {
        pages::a_piece_ends_with_its_page_or_its_request(ps, offset, len, pos);
        pages::lemma_split(ps, offset + pos);
        let n = pages::piece(ps, offset, len, pos);
        only_missing_pages_are_asked_for(c, offset, len, pos + n);
        let rest = c.misses(offset, len, pos + n);
        let all = c.misses(offset, len, pos);
        if forall|i: int| offset <= i < offset + len ==> c.here(#[trigger] (i / ps)) {
            assert(c.here((offset + pos) / ps));
            assert(all =~= rest);
        }
        if pos + n == len {
            assert(rest =~= Seq::<Request>::empty());
        }
        if c.here((offset + pos) / ps) {
            assert(all =~= rest);
        } else {
            let first = Request::Read { offset: (offset + pos) as u64, len: n as u64 };
            assert(all == seq![first] + rest);
            assert forall|k: int| 1 <= k < all.len() implies #[trigger] all[k] == rest[k - 1] by {}
            if pos + n == len {
                assert(all =~= seq![first]);
            }
        }
    }
}

/// A flush writes back the dirty pages, each once and in order, and no others.
pub proof fn a_flush_writes_back_the_dirty_pages<B: BlobBackend, D: BlobBackend, M: BlobBackend>(
    c: FileCacheBackend<B, D, M>,
    n: int,
)
    requires
        n >= 0,
    ensures
        c.write_backs(0) == Seq::<Request>::empty(),
        c.changed(n) ==> c.write_backs(n + 1) == c.write_backs(n).push(c.write_back(n)),
        !c.changed(n) ==> c.write_backs(n + 1) == c.write_backs(n),
        c.write_backs(n).len() == c.count_dirty(n),
        c.changed(n) ==> c.count_dirty(n + 1) == c.count_dirty(n) + 1,
        !c.changed(n) ==> c.count_dirty(n + 1) == c.count_dirty(n),
        0 <= c.count_dirty(n) <= n,
    decreases n,
{
    if n > 0 {
        a_flush_writes_back_the_dirty_pages(c, n - 1);
    }
}

/// A range is brought in page by page: each page that is not in the data file is
/// fetched once and kept once, in order, and no other.
pub proof fn absent_pages_are_fetched_and_kept<B: BlobBackend, D: BlobBackend, M: BlobBackend>(
    c: FileCacheBackend<B, D, M>,
    a: int,
    n: int,
)
    requires
        0 <= a <= n,
    ensures
        c.fetches(a, a) == Seq::<Request>::empty(),
        c.keeps(a, a) == Seq::<Request>::empty(),
        !c.here(n) ==> c.fetches(a, n + 1) == c.fetches(a, n).push(c.fetch(n)),
        !c.here(n) ==> c.keeps(a, n + 1) == c.keeps(a, n).push(c.keep(n)),
        c.here(n) ==> c.fetches(a, n + 1) == c.fetches(a, n),
        c.here(n) ==> c.keeps(a, n + 1) == c.keeps(a, n),
        c.fetches(a, n).len() == c.keeps(a, n).len(),
        c.count_here(0) == 0,
        c.here(n) ==> c.count_here(n + 1) == c.count_here(n) + 1,
        !c.here(n) ==> c.count_here(n + 1) == c.count_here(n),
    decreases n - a,
{
    if n > a {
        absent_pages_are_fetched_and_kept(c, a, n - 1);
    }
}

/// A warm-up wants the pages that begin below its limit and below the end of the
/// device, and of those, where the data ranges are known, the ones that hold data.
pub proof fn a_warm_up_wants_the_first_pages_with_data<
    B: BlobBackend,
    D: BlobBackend,
    M: BlobBackend,
>(c: FileCacheBackend<B, D, M>, limit_bytes: u64, ranges: Seq<(u64, u64)>, p: int)
    ensures
        c.wanted(limit_bytes, None, p) <==> p * c.page_bytes() < limit_bytes && p * c.page_bytes()
            < c.bytes().len(),
        c.wanted(limit_bytes, Some(ranges), p) <==> c.wanted(limit_bytes, None, p)
            && backend::intersects(ranges, p * c.page_bytes(), c.len_of(p)),
        limit_bytes == 0 && p >= 0 ==> !c.wanted(limit_bytes, None, p),
{
    if p >= 0 {
        assert(0 <= p * c.page_bytes()) by (nonlinear_arith)
            requires
                0 <= p,
                0 <= c.page_bytes(),
        ;
    }
}

/// A warm-up counts page by page: what it passes over, what it has to fetch, and
/// what it asks for.
pub proof fn a_warm_up_counts_page_by_page<B: BlobBackend, D: BlobBackend, M: BlobBackend>(
    c: FileCacheBackend<B, D, M>,
    limit_bytes: u64,
    ranges: Option<Seq<(u64, u64)>>,
    p: int,
)
    requires
        p >= 0,
    ensures
        c.skipped_to(limit_bytes, ranges, 0) == 0,
        c.absent_to(limit_bytes, ranges, 0) == 0,
        c.fetches_to(limit_bytes, ranges, 0) == Seq::<Request>::empty(),
        c.keeps_to(limit_bytes, ranges, 0) == Seq::<Request>::empty(),
        c.wanted(limit_bytes, ranges, p) && !c.here(p) ==> {
            &&& c.absent_to(limit_bytes, ranges, p + 1) == c.absent_to(limit_bytes, ranges, p)
                + c.len_of(p)
            &&& c.fetches_to(limit_bytes, ranges, p + 1) == c.fetches_to(
                limit_bytes,
                ranges,
                p,
            ).push(c.fetch(p))
            &&& c.keeps_to(limit_bytes, ranges, p + 1) == c.keeps_to(limit_bytes, ranges, p).push(
                c.keep(p),
            )
        },
        c.wanted(limit_bytes, ranges, p) ==> c.skipped_to(limit_bytes, ranges, p + 1)
            == c.skipped_to(limit_bytes, ranges, p),
        c.here(p) || !c.wanted(limit_bytes, ranges, p) ==> {
            &&& c.absent_to(limit_bytes, ranges, p + 1) == c.absent_to(limit_bytes, ranges, p)
            &&& c.fetches_to(limit_bytes, ranges, p + 1) == c.fetches_to(limit_bytes, ranges, p)
            &&& c.keeps_to(limit_bytes, ranges, p + 1) == c.keeps_to(limit_bytes, ranges, p)
        },
        c.wanted(limit_bytes, None, p) && !c.wanted(limit_bytes, ranges, p) ==> c.skipped_to(
            limit_bytes,
            ranges,
            p + 1,
        ) == c.skipped_to(limit_bytes, ranges, p) + c.len_of(p),
{
}

/// An eviction frees the bytes of the pages that go, and gives their space back where
/// they lie.
pub proof fn an_eviction_frees_what_goes<B: BlobBackend, D: BlobBackend, M: BlobBackend>(
    c: FileCacheBackend<B, D, M>,
    gone: Seq<u64>,
    p: u64,
)
    requires
        c.page_bytes() > 0,
        p * c.page_bytes() < c.bytes().len() <= u64::MAX,
    ensures
        c.freed(Seq::empty()) == 0,
        c.freed(gone.push(p)) == c.freed(gone) + c.len_of(p as int),
        c.discards(Seq::empty()) == Seq::<Request>::empty(),
        c.discards(gone.push(p)).len() == gone.len() + 1,
        c.discards(gone.push(p)).last() matches Request::Discard { offset, len } && offset == p
            * c.page_bytes() && len == c.len_of(p as int),
        c.discards(gone.push(p)).drop_last() == c.discards(gone),
{
    assert(gone.push(p).drop_last() =~= gone);
    assert(c.discards(gone.push(p)).drop_last() =~= c.discards(gone));
    assert(c.discards(Seq::empty()) =~= Seq::<Request>::empty());
    a_page_is_moved_whole(c, p as int);
}

/// The pages that go are the ones that were used longest ago: a page that is kept,
/// and might have gone, was used no earlier than any page that went.
pub proof fn the_oldest_pages_go<B: BlobBackend, D: BlobBackend, M: BlobBackend>(
    c: FileCacheBackend<B, D, M>,
    gone: Seq<u64>,
    protect: Option<u64>,
    went: u64,
    kept: u64,
)
    requires
        c.oldest_first(gone, protect),
        gone.contains(went),
        !gone.contains(kept),
        c.evictable(kept),
        protect != Some(kept),
    ensures
        c.evictable(went),
        protect != Some(went),
        c.recency(went) <= c.recency(kept),
{
    let i = choose|i: int| 0 <= i < gone.len() && gone[i] == went;
    assert(c.evictable(gone[i]));
}

/// What is over the shared limit is what the budget says; without a budget nothing
/// is.
pub proof fn only_a_budget_can_be_exceeded<B: BlobBackend, D: BlobBackend, M: BlobBackend>(
    c: FileCacheBackend<B, D, M>,
)
    ensures
        c.allowance() is None ==> c.excess() == 0 && !c.budgeted(),
        c.allowance() matches Some(b) ==> c.budgeted() && (cache_budget::sum(b.records())
            <= u64::MAX ==> {
            &&& (cache_budget::sum(b.records()) <= b.limit() ==> c.excess() == 0)
            &&& (cache_budget::sum(b.records()) > b.limit() ==> c.excess() == cache_budget::sum(
                b.records(),
            ) - b.limit())
        }),
{
}

} // verus!

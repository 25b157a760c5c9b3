use std::cell::RefCell;
use std::rc::Rc;

use ublk_azblob::backend::cache_budget::CacheBudget;
use ublk_azblob::backend::cache_index::{CacheIndex, Peers};
use ublk_azblob::backend::cache_meta::Reinit;
use ublk_azblob::backend::file::{FileCacheBackend, FileCacheConfig, Warmup};
use ublk_azblob::backend::mem::MemBackend;
use ublk_azblob::backend::{BackendError, BlobBackend, Op};

/// A store that the test keeps a hand on, and whose reads are counted.
#[derive(Clone)]
struct Handle {
    store: Rc<RefCell<MemBackend>>,
    reads: Rc<RefCell<u64>>,
    discards: Rc<RefCell<Vec<u64>>>,
}

impl Handle {
    fn new(size: u64) -> Self {
        Handle {
            store: Rc::new(RefCell::new(MemBackend::new(size).unwrap())),
            reads: Rc::new(RefCell::new(0)),
            discards: Rc::new(RefCell::new(Vec::new())),
        }
    }
    fn read_count(&self) -> u64 {
        *self.reads.borrow()
    }
    fn look(&self, offset: u64, len: u64) -> Vec<u8> {
        self.store.borrow_mut().read(offset, len).unwrap()
    }
}

impl BlobBackend for Handle {
    fn create(&mut self, size: u64) -> Result<(), BackendError> {
        self.store.borrow_mut().create(size)
    }
    fn read(&mut self, offset: u64, len: u64) -> Result<Vec<u8>, BackendError> {
        *self.reads.borrow_mut() += 1;
        self.store.borrow_mut().read(offset, len)
    }
    fn write(&mut self, offset: u64, data: &Vec<u8>) -> Result<(), BackendError> {
        self.store.borrow_mut().write(offset, data)
    }
    fn clear(&mut self, offset: u64, len: u64) -> Result<(), BackendError> {
        self.store.borrow_mut().clear(offset, len)
    }
    fn discard(&mut self, offset: u64, len: u64) -> Result<(), BackendError> {
        self.discards.borrow_mut().push(offset);
        self.store.borrow_mut().discard(offset, len)
    }
    fn flush(&mut self) -> Result<(), BackendError> {
        self.store.borrow_mut().flush()
    }
    fn resize(&mut self, new_size: u64) -> Result<(), BackendError> {
        self.store.borrow_mut().resize(new_size)
    }
    fn delete(&mut self) -> Result<(), BackendError> {
        self.store.borrow_mut().delete()
    }
    fn size(&mut self) -> Result<u64, BackendError> {
        self.store.borrow_mut().size()
    }
    fn snapshot(&mut self) -> Result<String, BackendError> {
        self.store.borrow_mut().snapshot()
    }
}

type Cache = FileCacheBackend<Handle, Handle, Handle>;

/// The files of one cache.
#[derive(Clone)]
struct Files {
    data: Handle,
    meta: Handle,
}

fn files(dev_size: u64) -> Files {
    Files { data: Handle::new(dev_size), meta: Handle::new(512) }
}

fn open(inner: &Handle, f: &Files, page_size: u64, dev_size: u64) -> (Cache, u64) {
    open_budgeted(inner, f, page_size, dev_size, 0)
}

fn open_budgeted(
    inner: &Handle,
    f: &Files,
    page_size: u64,
    dev_size: u64,
    max_bytes: u64,
) -> (Cache, u64) {
    let budget = CacheBudget::open("test", 1, max_bytes, "", &vec![1]).unwrap();
    let (c, recovered, _) = FileCacheBackend::open(
        inner.clone(),
        f.data.clone(),
        f.meta.clone(),
        page_size,
        dev_size,
        budget,
        None,
        true,
    )
    .map_err(|e| e.error)
    .unwrap();
    (c, recovered)
}

#[test]
fn file_write_read_roundtrip() {
    let (mut b, _) = open(&Handle::new(4096), &files(4096), 1024, 4096);
    let data = vec![0xAB; 512];
    b.write(0, &data).unwrap();
    assert_eq!(b.read(0, 512).unwrap(), data);
}

#[test]
fn file_write_spanning_pages() {
    let (mut b, _) = open(&Handle::new(4096), &files(4096), 1024, 4096);
    let data = vec![0xCD; 2048];
    b.write(512, &data).unwrap();
    assert_eq!(b.read(512, 2048).unwrap(), data);
}

#[test]
fn file_flush_persists_to_inner() {
    let inner = Handle::new(4096);
    let (mut b, _) = open(&inner, &files(4096), 1024, 4096);
    let data = vec![0xEF; 512];
    b.write(0, &data).unwrap();
    // Before flush the inner backend is untouched.
    assert!(inner.look(0, 512).iter().all(|&x| x == 0));
    b.flush().unwrap();
    assert_eq!(inner.look(0, 512), data);
    assert_eq!(b.dirty_count(), 0);
}

#[test]
fn clear_marks_dirty_and_zeroes() {
    let (mut b, _) = open(&Handle::new(4096), &files(4096), 1024, 4096);
    b.write(0, &vec![0xFF; 512]).unwrap();
    b.clear(0, 512).unwrap();
    assert!(b.read(0, 512).unwrap().iter().all(|&x| x == 0));
}

#[test]
fn file_out_of_bounds_is_rejected() {
    let (mut b, _) = open(&Handle::new(2048), &files(2048), 1024, 2048);
    assert!(b.read(1536, 1024).is_err());
    assert!(b.write(1536, &vec![0u8; 1024]).is_err());
    assert!(b.clear(1536, 1024).is_err());
}

#[test]
fn recovers_dirty_pages_after_restart() {
    let f = files(4096);
    let payload = vec![0x5A; 512];
    // First boot: write into the cache but never flush to the blob.
    {
        let inner = Handle::new(4096);
        let (mut b, recovered) = open(&inner, &f, 1024, 4096);
        assert_eq!(recovered, 0);
        b.write(1024, &payload).unwrap();
        // Inner backend still empty: data lives only in the disk cache.
        assert!(inner.look(1024, 512).iter().all(|&x| x == 0));
    }
    // Second boot: brand new (empty) inner backend, same cache files.
    {
        let inner = Handle::new(4096);
        let (mut b, recovered) = open(&inner, &f, 1024, 4096);
        // Dirty page must have been recovered from disk metadata.
        assert_eq!(recovered, 1);
        // The cached data is still readable straight from the local disk.
        assert_eq!(b.read(1024, 512).unwrap(), payload);
        // And it can still be flushed to the (fresh) blob after restart.
        b.flush().unwrap();
        assert_eq!(inner.look(1024, 512), payload);
        assert_eq!(b.dirty_count(), 0);
    }
}

#[test]
fn partial_page_write_preserves_neighbouring_data_on_flush() {
    // A sub-page write must read-modify-write the whole page so a later full-page
    // flush does not clobber the bytes it did not touch.
    let mut inner = Handle::new(4096);
    // Seed the inner backend so page 0 already has known content.
    inner.write(0, &vec![0x11; 1024]).unwrap();
    let (mut b, _) = open(&inner, &files(4096), 1024, 4096);
    // Overwrite only the first 512 bytes of page 0.
    b.write(0, &vec![0x22; 512]).unwrap();
    b.flush().unwrap();
    // First half updated, second half (loaded from inner) preserved.
    let page = inner.look(0, 1024);
    assert!(page[..512].iter().all(|&x| x == 0x22));
    assert!(page[512..].iter().all(|&x| x == 0x11));
}

#[test]
fn multi_page_write_flushes_all_pages() {
    let inner = Handle::new(4096);
    let (mut b, _) = open(&inner, &files(4096), 1024, 4096);
    // Write across all four 1 KiB pages in one call.
    let data = vec![0x9C; 4096];
    b.write(0, &data).unwrap();
    assert_eq!(b.dirty_count(), 4);
    b.flush().unwrap();
    assert_eq!(b.dirty_count(), 0);
    assert_eq!(inner.look(0, 4096), data);
}

#[test]
fn overwrite_dirty_page_flushes_latest_value() {
    let inner = Handle::new(4096);
    let (mut b, _) = open(&inner, &files(4096), 1024, 4096);
    // Two writes to the same page before any flush.
    b.write(0, &vec![0x01; 512]).unwrap();
    b.write(0, &vec![0x02; 512]).unwrap();
    // Still a single dirty page.
    assert_eq!(b.dirty_count(), 1);
    b.flush().unwrap();
    // The most recent write wins on the inner backend.
    assert_eq!(inner.look(0, 512), vec![0x02; 512]);
}

#[test]
fn write_to_last_short_page() {
    // dev_size (2560) is not a multiple of page_size (1024): the last page is a
    // short 512-byte page. Writing it must flush only its valid bytes.
    let inner = Handle::new(2560);
    let (mut b, _) = open(&inner, &files(2560), 1024, 2560);
    let payload = vec![0x77; 512];
    b.write(2048, &payload).unwrap();
    b.flush().unwrap();
    assert_eq!(inner.look(2048, 512), payload);
    assert_eq!(b.read(2048, 512).unwrap(), payload);
}

#[test]
fn read_after_write_hits_cache_without_touching_inner() {
    // After a cached write, a read of that page is served from the local disk
    // file, not the (still-empty) inner backend.
    let inner = Handle::new(4096);
    let (mut b, _) = open(&inner, &files(4096), 1024, 4096);
    let payload = vec![0x3D; 512];
    b.write(512, &payload).unwrap();
    // Inner is still untouched (no flush yet) but the cache serves the data.
    assert!(inner.look(512, 512).iter().all(|&x| x == 0));
    let before = inner.read_count();
    assert_eq!(b.read(512, 512).unwrap(), payload);
    assert_eq!(inner.read_count(), before);
}

#[test]
fn read_miss_is_served_from_inner_without_caching() {
    // A pure read of a never-written page comes straight from the inner backend
    // and does not populate the cache (page stays absent).
    let mut inner = Handle::new(4096);
    inner.write(0, &vec![0x6E; 512]).unwrap();
    let (mut b, _) = open(&inner, &files(4096), 1024, 4096);
    assert_eq!(b.read(0, 512).unwrap(), vec![0x6E; 512]);
    // Read does not dirty anything, and the page stays absent from the cache.
    assert_eq!(b.dirty_count(), 0);
    assert_eq!(b.present_count(), 0);
}

#[test]
fn prefetch_populates_cache_as_clean_pages() {
    // Prefetch makes pages resident locally (clean, not dirty) so later reads are
    // served from the cache file even if the inner backend changes.
    let mut inner = Handle::new(8192);
    inner.write(0, &vec![0xAB; 2048]).unwrap();
    let (mut b, _) = open(&inner, &files(4096), 1024, 4096);
    // Prefetch the first two 1 KiB pages.
    b.prefetch(0, 2048).unwrap();
    // Both pages are now resident and clean (no write-back pending).
    assert_eq!(b.present_count(), 2);
    assert_eq!(b.dirty_count(), 0);
    // Mutate the inner backend; the cache must serve the warmed copy.
    inner.write(0, &vec![0x00; 2048]).unwrap();
    assert_eq!(b.read(0, 2048).unwrap(), vec![0xAB; 2048]);
}

#[test]
fn warmup_concurrent_populates_all_pages() {
    // Warm-up fetches every page from the inner backend and makes it resident as a
    // clean page.
    let page = 1024u64;
    let dev = 16 * page; // 16 pages
    let mut inner = Handle::new(dev);
    inner.write(0, &vec![0x5A; dev as usize]).unwrap();
    let (mut b, _) = open(&inner, &files(dev), page, dev);
    assert_eq!(b.warmup(dev, None), Warmup { warmed: dev, skipped: 0, failed: 0 });
    assert_eq!(b.present_count(), 16);
    assert_eq!(b.dirty_count(), 0);
    // Mutate inner; every page must now be served from the warmed cache.
    inner.write(0, &vec![0x00; dev as usize]).unwrap();
    assert_eq!(b.read(0, dev).unwrap(), vec![0x5A; dev as usize]);
}

#[test]
fn warmup_skips_zero_gap_pages_via_data_ranges() {
    // With a sparseness map, warm-up must populate only the pages overlapping a
    // data range and never fetch (or make resident) the pages lying entirely in a
    // zero gap.
    let page = 1024u64;
    let dev = 16 * page; // 16 pages
    // Data lives only in pages [4, 8); the rest of the device is a zero gap.
    let data_off = 4 * page;
    let data_len = 4 * page;
    let mut inner = Handle::new(dev);
    inner.write(data_off, &vec![0x5A; data_len as usize]).unwrap();
    let (mut b, _) = open(&inner, &files(dev), page, dev);
    let done = b.warmup(dev, Some(&vec![(data_off, data_len)]));
    assert_eq!(done, Warmup { warmed: data_len, skipped: dev - data_len, failed: 0 });
    // Only the 4 data pages are resident; the 12 zero-gap pages were skipped.
    assert_eq!(b.present_count(), 4);
    // And only those 4 pages were ever fetched from the backend.
    assert_eq!(inner.read_count(), 4);
}

#[test]
fn warmup_goes_on_after_a_failed_page() {
    let page = 1024u64;
    let dev = 4 * page;
    let mut inner = Handle::new(dev);
    let (mut b, _) = open(&inner, &files(dev), page, dev);
    b.prefetch(0, page).unwrap();
    // The blob has lost its second half.
    inner.create(2 * page).unwrap();
    let done = b.warmup(dev - 512, None);
    assert_eq!(done, Warmup { warmed: page, skipped: 0, failed: 2 * page });
    assert_eq!(b.present_count(), 2);
}

#[test]
fn dirty_writes_survive_reopen_and_flush_once() {
    // Writes that are persisted to the cache but never flushed are recovered as
    // dirty after reopening the cache on the same files, and the recovered data
    // flushes correctly to a fresh inner backend.
    let f = files(4096);
    let payload = vec![0x4F; 2048];
    {
        let (mut b, recovered) = open(&Handle::new(4096), &f, 1024, 4096);
        assert_eq!(recovered, 0);
        b.write(0, &payload).unwrap();
    }
    {
        let inner = Handle::new(4096);
        let (mut b, recovered) = open(&inner, &f, 1024, 4096);
        assert_eq!(recovered, 2);
        // Cached data still readable from disk after reopen.
        assert_eq!(b.read(0, 2048).unwrap(), payload);
        b.flush().unwrap();
        assert_eq!(inner.look(0, 2048), payload);
        assert_eq!(b.dirty_count(), 0);
    }
}

#[test]
fn create_resets_cache() {
    let (mut b, _) = open(&Handle::new(4096), &files(4096), 1024, 4096);
    b.write(0, &vec![0x7E; 512]).unwrap();
    assert_eq!(b.dirty_count(), 1);
    b.create(4096).unwrap();
    assert_eq!(b.dirty_count(), 0);
    // After reset the page reads back as zero from the fresh inner backend.
    assert!(b.read(0, 512).unwrap().iter().all(|&x| x == 0));
}

#[test]
fn budget_evicts_lru_clean_pages() {
    // Budget of two 1 KiB pages. Writing three different pages must keep the cache
    // at two resident pages, evicting the least-recently-used one.
    let mut inner = Handle::new(4096);
    for (i, byte) in [0x10u8, 0x20, 0x30, 0x40].into_iter().enumerate() {
        inner.write(i as u64 * 1024, &vec![byte; 1024]).unwrap();
    }
    let (mut b, _) = open_budgeted(&inner, &files(4096), 1024, 4096, 2048);
    // Make pages clean+resident by writing then flushing each.
    b.write(0, &vec![0xA0; 1024]).unwrap();
    b.write(1024, &vec![0xA1; 1024]).unwrap();
    b.flush().unwrap();
    assert_eq!(b.present_count(), 2);
    assert_eq!(b.resident_bytes(), 2048);
    // Touch page 0 so page 1 becomes the LRU victim.
    b.read(0, 512).unwrap();
    // A third clean page must evict exactly one page to stay within budget.
    b.write(2048, &vec![0xA2; 1024]).unwrap();
    b.flush().unwrap();
    assert_eq!(b.present_count(), 2);
    assert_eq!(b.resident_bytes(), 2048);
    // Page 1 (LRU) was evicted: it now re-reads from the inner backend value.
    let before = inner.read_count();
    assert_eq!(b.read(1024, 1024).unwrap(), vec![0xA1; 1024]);
    assert_eq!(inner.read_count(), before + 1);
}

#[test]
fn budget_never_evicts_dirty_pages() {
    // Even when way over budget, unflushed (dirty) pages must never be dropped:
    // that would lose data.
    let inner = Handle::new(4096);
    // Tiny budget: one page.
    let (mut b, _) = open_budgeted(&inner, &files(4096), 1024, 4096, 1024);
    // Dirty three pages without flushing.
    b.write(0, &vec![0xB0; 1024]).unwrap();
    b.write(1024, &vec![0xB1; 1024]).unwrap();
    b.write(2048, &vec![0xB2; 1024]).unwrap();
    // All three remain present (dirty, non-evictable) despite the 1-page budget.
    assert_eq!(b.dirty_count(), 3);
    assert_eq!(b.present_count(), 3);
    // They all flush correctly (no data lost to eviction).
    b.flush().unwrap();
    assert_eq!(inner.look(0, 1024), vec![0xB0; 1024]);
    assert_eq!(inner.look(1024, 1024), vec![0xB1; 1024]);
    assert_eq!(inner.look(2048, 1024), vec![0xB2; 1024]);
}

#[test]
fn unlimited_budget_never_evicts() {
    let (mut b, _) = open_budgeted(&Handle::new(4096), &files(4096), 1024, 4096, 0);
    for i in 0..4u64 {
        b.write(i * 1024, &vec![0xC0 + i as u8; 1024]).unwrap();
    }
    b.flush().unwrap();
    assert_eq!(b.present_count(), 4);
}

#[test]
fn evicted_pages_reload_correct_data() {
    // After a clean page is evicted to honour the budget, a later read of it must
    // transparently reload the exact bytes from the inner backend, while the
    // most-recently-written page stays resident in the cache.
    let (mut b, _) = open_budgeted(&Handle::new(8192), &files(8192), 4096, 8192, 4096);
    // Page 0 becomes clean + resident, filling the whole one-page budget.
    b.write(0, &vec![0xD0; 4096]).unwrap();
    b.flush().unwrap();
    assert_eq!(b.present_count(), 1);
    // Writing page 1 goes over budget and evicts the older clean page 0.
    b.write(4096, &vec![0xD1; 4096]).unwrap();
    b.flush().unwrap();
    assert_eq!(b.present_count(), 1);
    assert_eq!(b.resident_bytes(), 4096);
    // Both pages read back their correct values: page 1 from the resident cache,
    // page 0 reloaded from the blob after its eviction.
    assert_eq!(b.read(4096, 4096).unwrap(), vec![0xD1; 4096]);
    assert_eq!(b.read(0, 4096).unwrap(), vec![0xD0; 4096]);
}

#[test]
fn eviction_drops_the_oldest_clean_pages_first() {
    let (mut b, _) = open_budgeted(&Handle::new(6144), &files(6144), 1024, 6144, 1 << 20);
    for i in 0..5u64 {
        b.write(i * 1024, &vec![i as u8 + 1; 1024]).unwrap();
    }
    b.flush().unwrap();
    // Page 4 is dirty again, page 0 was used last.
    b.write(4096, &vec![9; 1024]).unwrap();
    b.read(0, 512).unwrap();
    assert_eq!(b.resident_bytes(), 5 * 1024);
    // 1500 bytes take two pages; page 1 may not go.
    let done = b.evict_clean(1500, Some(1));
    assert_eq!(done.pages, vec![2, 3]);
    assert!(done.refused.is_none());
    assert_eq!(b.resident_bytes(), 3 * 1024);
    assert_eq!(b.present_count(), 3);
    // All that may go is gone before as much is free as was asked for.
    let done = b.evict_clean(1 << 30, None);
    assert_eq!(done.pages, vec![1, 0]);
    assert_eq!(b.resident_bytes(), 1024);
    assert_eq!(b.dirty_count(), 1);
    assert!(b.evict_clean(0, None).pages.is_empty());
    assert_eq!(b.read(4096, 512).unwrap(), vec![9; 512]);
    assert_eq!(b.read(2048, 512).unwrap(), vec![3; 512]);
}

#[test]
fn eviction_stops_where_space_cannot_be_given_back() {
    let mut f = files(4096);
    let (mut b, _) = open_budgeted(&Handle::new(4096), &f, 1024, 4096, 1 << 20);
    b.write(0, &vec![1; 1024]).unwrap();
    b.write(1024, &vec![2; 1024]).unwrap();
    b.flush().unwrap();
    // The data file is gone: nothing can be discarded in it.
    f.data.delete().unwrap();
    let done = b.evict_clean(1024, None);
    assert!(done.pages.is_empty());
    assert!(done.refused.is_some());
    assert_eq!(b.resident_bytes(), 2048);
    assert_eq!(b.present_count(), 2);
}

#[test]
fn eviction_gives_space_back() {
    // The evicted page's range of the data file reads as zeros again.
    let f = files(8192);
    let (mut b, _) = open_budgeted(&Handle::new(8192), &f, 4096, 8192, 4096);
    b.write(0, &vec![0xD0; 4096]).unwrap();
    b.flush().unwrap();
    assert!(f.data.look(0, 4096).iter().all(|&x| x == 0xD0));
    b.write(4096, &vec![0xD1; 4096]).unwrap();
    b.flush().unwrap();
    assert!(f.data.look(0, 4096).iter().all(|&x| x == 0));
    // Without support for that, the cache only grows.
    let g = files(8192);
    let budget = CacheBudget::open("test", 1, 4096, "", &vec![1]).unwrap();
    let (mut b, _, _) = FileCacheBackend::open(
        Handle::new(8192),
        g.data.clone(),
        g.meta.clone(),
        4096,
        8192,
        budget,
        None,
        false,
    )
    .map_err(|e| e.error)
    .unwrap();
    b.write(0, &vec![0xD0; 4096]).unwrap();
    b.flush().unwrap();
    b.write(4096, &vec![0xD1; 4096]).unwrap();
    b.flush().unwrap();
    assert_eq!(b.present_count(), 2);
}

// ── Sharing ─────────────────────────────────────────────────────────────────

/// The caches of one directory: their data files and the text of the page index.
struct Dir {
    index: String,
    owners: Vec<(String, Handle)>,
}

impl Dir {
    fn new() -> Self {
        Dir { index: String::new(), owners: Vec::new() }
    }

    /// Open a sharing-enabled cache of the blob `golden`.
    fn open_shared(&mut self, inner: &Handle, name: &str, page: u64, dev: u64) -> Cache {
        let f = files(dev);
        let index = CacheIndex::open(name, 1, "golden", page, &self.index, &vec![1]).unwrap();
        let (c, _, _) = FileCacheBackend::open(
            inner.clone(),
            f.data.clone(),
            f.meta.clone(),
            page,
            dev,
            None,
            Some(index),
            true,
        )
        .map_err(|e| e.error)
        .unwrap();
        self.owners.push((name.to_string(), f.data));
        c
    }

    /// What the peers of `name` offer right now.
    fn peers(&self, name: &str, page: u64) -> Peers<Handle> {
        Peers {
            index: CacheIndex::open(name, 1, "golden", page, &self.index, &vec![1]).unwrap(),
            files: self.owners.clone(),
        }
    }

    /// Let `c` work on the current index, and store what it makes of it.
    fn with<T>(&mut self, c: &mut Cache, f: impl FnOnce(&mut Cache) -> T) -> T {
        c.sync("", &self.index, &vec![1]);
        let r = f(c);
        self.index = c.registries().1.unwrap();
        r
    }
}

#[test]
fn peer_serves_clean_page_without_blob_read() {
    // Cache A holds a page of a blob; cache B, a second cache of the same blob,
    // serves a read of that page from A's data file without reading the blob.
    let page = 4096u64;
    let dev = 2 * page;
    let mut dir = Dir::new();
    let mut a_inner = Handle::new(dev);
    a_inner.write(0, &vec![0xA7; page as usize]).unwrap();
    let mut a = dir.open_shared(&a_inner, "volA", page, dev);
    // A writes page 0 and flushes: it is now clean, resident and published.
    dir.with(&mut a, |a| a.write(0, &vec![0xA7; page as usize])).unwrap();
    dir.with(&mut a, |a| a.flush()).unwrap();

    let b_blob = Handle::new(dev);
    let mut b = dir.open_shared(&b_blob, "volB", page, dev);
    let mut peers = dir.peers("volB", page);
    let got = b.read_shared(0, page, &mut peers).unwrap();
    assert_eq!(got, vec![0xA7; page as usize]);
    assert_eq!(b_blob.read_count(), 0, "page should come from peer, not blob");

    // A page no peer published still falls back to the blob (one read).
    b.read_shared(page, page, &mut peers).unwrap();
    assert_eq!(b_blob.read_count(), 1);
}

#[test]
fn warmup_publishes_clean_pages_for_peers() {
    // Prefetch must publish the clean pages it makes resident so that a peer can
    // read them from the warmer's data file.
    let page = 4096u64;
    let dev = 2 * page;
    let mut dir = Dir::new();
    let mut a_inner = Handle::new(dev);
    a_inner.write(0, &vec![0xC3; page as usize]).unwrap();
    let mut a = dir.open_shared(&a_inner, "volA", page, dev);
    dir.with(&mut a, |a| a.prefetch(0, page)).unwrap();
    assert_eq!(a.present_count(), 1);
    assert_eq!(a.dirty_count(), 0);

    let b_blob = Handle::new(dev);
    let mut b = dir.open_shared(&b_blob, "volB", page, dev);
    let got = b.read_shared(0, page, &mut dir.peers("volB", page)).unwrap();
    assert_eq!(got, vec![0xC3; page as usize]);
    assert_eq!(b_blob.read_count(), 0, "warmed page should come from peer, not blob");
}

#[test]
fn cow_writers_do_not_corrupt_each_other() {
    // Two caches share a blob. When each writes the same page, it copies on write
    // into its own data file and withdraws the page from the index, so neither
    // observes the other's bytes.
    let page = 4096u64;
    let dev = page;
    let mut dir = Dir::new();
    let a_inner = Handle::new(dev);
    let mut a = dir.open_shared(&a_inner, "cowA", page, dev);
    let b_inner = Handle::new(dev);
    let mut b = dir.open_shared(&b_inner, "cowB", page, dev);
    dir.with(&mut a, |a| a.write(0, &vec![0x11; page as usize])).unwrap();
    dir.with(&mut a, |a| a.flush()).unwrap();
    dir.with(&mut b, |b| b.write(0, &vec![0x22; page as usize])).unwrap();
    dir.with(&mut b, |b| b.flush()).unwrap();
    // Each reads back its own value; neither is corrupted by the other.
    let mut seen_by_a = dir.peers("cowA", page);
    let mut seen_by_b = dir.peers("cowB", page);
    assert_eq!(a.read_shared(0, page, &mut seen_by_a).unwrap(), vec![0x11; page as usize]);
    assert_eq!(b.read_shared(0, page, &mut seen_by_b).unwrap(), vec![0x22; page as usize]);
    // And each backing blob holds its own value.
    assert_eq!(a_inner.look(0, page), vec![0x11; page as usize]);
    assert_eq!(b_inner.look(0, page), vec![0x22; page as usize]);
}

#[test]
fn dirtying_page_withdraws_it_from_peers() {
    // A page that peers are served must stop being shared the moment its owner
    // dirties it.
    let page = 4096u64;
    let dev = page;
    let mut dir = Dir::new();
    let a_inner = Handle::new(dev);
    let mut a = dir.open_shared(&a_inner, "wA", page, dev);
    dir.with(&mut a, |a| a.write(0, &vec![0x55; page as usize])).unwrap();
    dir.with(&mut a, |a| a.flush()).unwrap();

    // B can see A's published page.
    let b_blob = Handle::new(dev);
    let mut b = dir.open_shared(&b_blob, "wB", page, dev);
    let got = b.read_shared(0, page, &mut dir.peers("wB", page)).unwrap();
    assert_eq!(got, vec![0x55; page as usize]);
    assert_eq!(b_blob.read_count(), 0);

    // A dirties the page (without flushing): it is withdrawn from sharing.
    dir.with(&mut a, |a| a.write(0, &vec![0x66; page as usize])).unwrap();

    // B now misses the peer and falls back to its own blob.
    b.read_shared(0, page, &mut dir.peers("wB", page)).unwrap();
    assert_eq!(b_blob.read_count(), 1, "withdrawn page must hit the blob");
}

#[test]
fn pages_are_filled_from_peers() {
    let page = 4096u64;
    let dev = 3 * page;
    let mut dir = Dir::new();
    let mut blob = Handle::new(dev);
    blob.write(0, &vec![0x42; dev as usize]).unwrap();
    let mut a = dir.open_shared(&blob, "a", page, dev);
    dir.with(&mut a, |a| a.prefetch(0, dev)).unwrap();
    let reads = blob.read_count();

    let mut b = dir.open_shared(&blob, "b", page, dev);
    let mut peers = dir.peers("b", page);
    b.prefetch_shared(0, page, &mut peers).unwrap();
    assert_eq!(b.present_count(), 1);
    // A partial write needs the rest of the page, which a peer has.
    b.load_edges(page, 512, &mut peers).unwrap();
    b.write(page, &vec![0x43; 512]).unwrap();
    let done = b.warmup_shared(dev, None, &mut peers);
    assert_eq!(done, Warmup { warmed: page, skipped: 0, failed: 0 });
    assert_eq!(b.present_count(), 3);
    assert_eq!(blob.read_count(), reads, "everything came from the peer");
    assert_eq!(b.read(page + 512, 512).unwrap(), vec![0x42; 512]);
    assert_eq!(b.read(page, 512).unwrap(), vec![0x43; 512]);
}

// ── Opening ─────────────────────────────────────────────────────────────────

#[test]
fn metadata_that_does_not_fit_starts_empty() {
    let f = files(4096);
    {
        let (mut b, _) = open(&Handle::new(4096), &f, 1024, 4096);
        b.write(0, &vec![1u8; 512]).unwrap();
    }
    let (_, recovered, why) = FileCacheBackend::open(
        Handle::new(4096),
        f.data.clone(),
        f.meta.clone(),
        2048,
        4096,
        None,
        None,
        true,
    )
    .map_err(|e| e.error)
    .unwrap();
    assert_eq!(recovered, 0);
    assert!(matches!(why, Some(Reinit::Mismatch)));
    let bad = FileCacheBackend::open(
        Handle::new(4096),
        f.data.clone(),
        f.meta.clone(),
        1000,
        4096,
        None,
        None,
        true,
    );
    assert!(matches!(bad.map_err(|e| e.error), Err(BackendError::BadConfig { .. })));
    let d = FileCacheConfig::default();
    assert_eq!((d.dir.as_str(), d.name.as_str(), d.page_size), (".", "ublk-azblob-cache", 1048576));
}

#[test]
fn a_closed_cache_hands_its_parts_back() {
    let (mut b, _) = open(&Handle::new(2048), &files(2048), 1024, 2048);
    b.write(0, &vec![9u8; 1024]).unwrap();
    let (inner, data, _) = b.into_parts();
    assert!(inner.look(0, 1024).iter().all(|&x| x == 0));
    assert_eq!(data.look(0, 1024), vec![9u8; 1024]);
}

/// A file of any length, which can be told to fail.
#[derive(Clone)]
struct Ragged {
    bytes: Rc<RefCell<Vec<u8>>>,
    broken: bool,
}

impl Ragged {
    fn run<T>(&self, f: impl FnOnce(&mut Vec<u8>) -> T) -> Result<T, BackendError> {
        if self.broken {
            return Err(BackendError::Failed("broken".to_string()));
        }
        Ok(f(&mut self.bytes.borrow_mut()))
    }
}

impl BlobBackend for Ragged {
    fn create(&mut self, size: u64) -> Result<(), BackendError> {
        self.run(|b| *b = vec![0; size as usize])
    }
    fn read(&mut self, offset: u64, len: u64) -> Result<Vec<u8>, BackendError> {
        self.run(|b| b[offset as usize..(offset + len) as usize].to_vec())
    }
    fn write(&mut self, offset: u64, data: &Vec<u8>) -> Result<(), BackendError> {
        self.run(|b| b[offset as usize..offset as usize + data.len()].copy_from_slice(data))
    }
    fn clear(&mut self, offset: u64, len: u64) -> Result<(), BackendError> {
        self.run(|b| b[offset as usize..(offset + len) as usize].fill(0))
    }
    fn discard(&mut self, offset: u64, len: u64) -> Result<(), BackendError> {
        self.clear(offset, len)
    }
    fn flush(&mut self) -> Result<(), BackendError> {
        self.run(|_| ())
    }
    fn resize(&mut self, new_size: u64) -> Result<(), BackendError> {
        self.run(|b| b.resize(new_size as usize, 0))
    }
    fn delete(&mut self) -> Result<(), BackendError> {
        self.run(|b| b.clear())
    }
    fn size(&mut self) -> Result<u64, BackendError> {
        self.run(|b| b.len() as u64)
    }
    fn snapshot(&mut self) -> Result<String, BackendError> {
        Err(BackendError::Unsupported)
    }
}

fn open_ragged(
    inner: &Handle,
    data: &Handle,
    meta: &Ragged,
) -> Result<(FileCacheBackend<Handle, Handle, Ragged>, u64, Option<Reinit>), BackendError> {
    FileCacheBackend::open(inner.clone(), data.clone(), meta.clone(), 1024, 4096, None, None, true)
        .map_err(|e| e.error)
}

#[test]
fn metadata_that_ends_inside_a_block_is_recovered() {
    let (inner, data) = (Handle::new(4096), Handle::new(4096));
    let meta = Ragged { bytes: Rc::new(RefCell::new(Vec::new())), broken: false };
    {
        let (mut b, _, why) = open_ragged(&inner, &data, &meta).unwrap();
        assert!(matches!(why, Some(Reinit::Fresh)));
        b.write(1024, &vec![7u8; 1024]).unwrap();
    }
    assert_eq!(meta.bytes.borrow().len(), 512);
    // A file of just the header and the two bitmaps.
    meta.bytes.borrow_mut().truncate(66);
    let (mut b, recovered, why) = open_ragged(&inner, &data, &meta).unwrap();
    assert!(why.is_none());
    assert_eq!(recovered, 1);
    assert_eq!(meta.bytes.borrow().len(), 512);
    assert_eq!(b.read(1024, 1024).unwrap(), vec![7u8; 1024]);
    b.flush().unwrap();
    assert_eq!(inner.look(1024, 1024), vec![7u8; 1024]);
    // One byte less is too short for the bitmaps: padding does not make up for it.
    meta.bytes.borrow_mut().truncate(65);
    let (_, recovered, why) = open_ragged(&inner, &data, &meta).unwrap();
    assert!(matches!(why, Some(Reinit::Truncated)));
    assert_eq!(recovered, 0);
}

#[test]
fn a_failed_open_hands_its_parts_back() {
    let inner = Handle::new(4096);
    inner.clone().write(0, &vec![3u8; 512]).unwrap();
    let meta = Ragged { bytes: Rc::new(RefCell::new(Vec::new())), broken: true };
    let r = FileCacheBackend::open(
        inner,
        Handle::new(4096),
        meta,
        1024,
        4096,
        None,
        None,
        true,
    );
    match r {
        Ok(_) => panic!("the metadata file is broken"),
        Err(f) => {
            assert!(matches!(f.error, BackendError::Failed(_)));
            assert_eq!(f.inner.look(0, 512), vec![3u8; 512]);
            assert_eq!(f.data.look(0, 512), vec![0u8; 512]);
        }
    }
}

#[test]
fn a_second_cache_flush_writes_no_page() {
    let inner = Handle::new(4096);
    let (mut b, _) = open(&inner, &files(4096), 1024, 4096);
    b.write(0, &vec![1u8; 512]).unwrap();
    b.flush().unwrap();
    inner.clone().write(0, &vec![9u8; 512]).unwrap();
    b.flush().unwrap();
    assert_eq!(inner.look(0, 512), vec![9u8; 512]);
}

#[test]
fn a_hit_makes_a_page_the_most_recent() {
    let f = files(8192);
    let (mut b, _) = open_budgeted(&Handle::new(8192), &f, 1024, 8192, 4096);
    for p in 0..4 {
        b.prefetch(p * 1024, 1024).unwrap();
    }
    b.read(0, 512).unwrap();
    b.prefetch(4096, 1024).unwrap();
    b.prefetch(5120, 1024).unwrap();
    let reads = b.inner().read_count();
    b.read(0, 512).unwrap();
    assert_eq!(b.inner().read_count(), reads, "the page that was read is still there");
    b.read(1024, 512).unwrap();
    b.read(2048, 512).unwrap();
    assert_eq!(b.inner().read_count(), reads + 2, "the two oldest pages are gone");
}

#[test]
fn a_refused_prefetch_says_so() {
    let (mut b, _) = open(&Handle::new(4096), &files(4096), 1024, 4096);
    assert!(matches!(
        b.prefetch(4096, 512),
        Err(BackendError::OutOfBounds { op: Op::Prefetch, .. })
    ));
    assert!(matches!(
        b.prefetch(1, 512),
        Err(BackendError::UnalignedRange { op: Op::Prefetch, .. })
    ));
}

#[test]
fn a_flushed_cache_reopens_clean() {
    let (inner, f) = (Handle::new(4096), files(4096));
    {
        let (mut b, _) = open(&inner, &f, 1024, 4096);
        b.write(0, &vec![1u8; 1024]).unwrap();
        b.write(2048, &vec![2u8; 512]).unwrap();
        b.flush().unwrap();
        b.write(3072, &vec![3u8; 1024]).unwrap();
    }
    let (mut b, recovered) = open(&inner, &f, 1024, 4096);
    assert_eq!(recovered, 1);
    assert_eq!((b.present_count(), b.dirty_count()), (3, 1));
    assert_eq!(b.read(3072, 1024).unwrap(), vec![3u8; 1024]);
    b.flush().unwrap();
    assert_eq!(open(&inner, &f, 1024, 4096).1, 0);
    assert_eq!(inner.look(3072, 1024), vec![3u8; 1024]);
}

#[test]
fn recovered_pages_count_against_the_budget() {
    let (inner, f) = (Handle::new(8192), files(8192));
    {
        let (mut b, _) = open_budgeted(&inner, &f, 1024, 8192, 4096);
        for p in 0..4 {
            b.prefetch(p * 1024, 1024).unwrap();
        }
    }
    let (mut b, _) = open_budgeted(&inner, &f, 1024, 8192, 4096);
    assert_eq!(b.resident_bytes(), 4096);
    b.prefetch(4096, 1024).unwrap();
    assert_eq!(b.resident_bytes(), 4096);
    // Flushed pages can go, too.
    for p in 5..8 {
        b.write(p * 1024, &vec![9u8; 1024]).unwrap();
    }
    b.flush().unwrap();
    for p in 0..4 {
        b.prefetch(p * 1024, 1024).unwrap();
    }
    assert_eq!(b.resident_bytes(), 4096);
    assert_eq!(b.present_count(), 4);
}

#[test]
fn a_cache_may_cover_part_of_its_store() {
    let mut inner = Handle::new(8192);
    inner.write(0, &vec![7u8; 8192]).unwrap();
    let (mut b, _) = open(&inner, &files(4096), 1024, 4096);
    assert_eq!(b.size().unwrap(), 4096);
    assert_eq!(b.read(3584, 512).unwrap(), vec![7u8; 512]);
    assert!(b.read(4096, 512).is_err());
    b.write(0, &vec![1u8; 512]).unwrap();
    b.flush().unwrap();
    assert_eq!(inner.look(0, 512), vec![1u8; 512]);
    assert_eq!(inner.look(4096, 4096), vec![7u8; 4096]);
}

#[test]
fn a_deleted_cache_has_no_pages() {
    let f = files(4096);
    let (mut b, _) = open_budgeted(&Handle::new(4096), &f, 1024, 4096, 4096);
    b.write(0, &vec![1u8; 1024]).unwrap();
    b.delete().unwrap();
    assert_eq!(b.resident_bytes(), 0);
    assert_eq!(b.inner().clone().size().unwrap(), 0);
}

#[test]
fn a_recreated_cache_reads_zeros() {
    let (mut b, _) = open(&Handle::new(4096), &files(4096), 1024, 4096);
    b.write(0, &vec![0x7E; 512]).unwrap();
    b.flush().unwrap();
    b.create(4096).unwrap();
    b.prefetch(0, 1024).unwrap();
    assert_eq!(b.read(0, 512).unwrap(), vec![0u8; 512]);
}

#[test]
fn evicted_pages_give_their_space_back() {
    let f = files(8192);
    let (mut b, _) = open_budgeted(&Handle::new(8192), &f, 1024, 8192, 2048);
    for p in [3, 1, 6] {
        b.prefetch(p * 1024, 1024).unwrap();
    }
    assert_eq!(*f.data.discards.borrow(), vec![3 * 1024]);
    assert_eq!(b.resident_bytes(), 2048);
}

#[test]
fn a_write_of_whole_pages_reads_nothing() {
    let inner = Handle::new(4096);
    let (mut b, _) = open(&inner, &files(4096), 1024, 4096);
    b.write(1024, &vec![1u8; 2048]).unwrap();
    assert_eq!(inner.read_count(), 0);
    b.write(512, &vec![2u8; 1024]).unwrap();
    assert_eq!(inner.read_count(), 1);
    b.read(0, 3072).unwrap();
    assert_eq!(inner.read_count(), 1);
}

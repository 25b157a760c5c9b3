use std::cell::RefCell;
use std::rc::Rc;

use ublk_azblob::backend::buffered::{BufferedBackend, BufferedConfig, FlushDue};
use ublk_azblob::backend::mem::MemBackend;
use ublk_azblob::backend::{BackendError, BlobBackend};

/// A store that the test keeps a hand on.
#[derive(Clone)]
struct Handle(Rc<RefCell<MemBackend>>);

impl Handle {
    fn new(size: u64) -> Self {
        Handle(Rc::new(RefCell::new(MemBackend::new(size).unwrap())))
    }
}

impl BlobBackend for Handle {
    fn create(&mut self, size: u64) -> Result<(), BackendError> {
        self.0.borrow_mut().create(size)
    }
    fn read(&mut self, offset: u64, len: u64) -> Result<Vec<u8>, BackendError> {
        self.0.borrow_mut().read(offset, len)
    }
    fn write(&mut self, offset: u64, data: &Vec<u8>) -> Result<(), BackendError> {
        self.0.borrow_mut().write(offset, data)
    }
    fn clear(&mut self, offset: u64, len: u64) -> Result<(), BackendError> {
        self.0.borrow_mut().clear(offset, len)
    }
    fn discard(&mut self, offset: u64, len: u64) -> Result<(), BackendError> {
        self.0.borrow_mut().discard(offset, len)
    }
    fn flush(&mut self) -> Result<(), BackendError> {
        self.0.borrow_mut().flush()
    }
    fn resize(&mut self, new_size: u64) -> Result<(), BackendError> {
        self.0.borrow_mut().resize(new_size)
    }
    fn delete(&mut self) -> Result<(), BackendError> {
        self.0.borrow_mut().delete()
    }
    fn size(&mut self) -> Result<u64, BackendError> {
        self.0.borrow_mut().size()
    }
    fn snapshot(&mut self) -> Result<String, BackendError> {
        self.0.borrow_mut().snapshot()
    }
}

fn config(page_size: u64, max_dirty_pages: usize, flush_concurrency: usize) -> BufferedConfig {
    BufferedConfig {
        page_size,
        max_dirty_pages,
        idle_flush_secs: 0,
        force_flush_timeout_secs: 0,
        flush_io_timeout_secs: 0,
        flush_concurrency,
    }
}

fn make_backend(dev_size: u64, page_size: u64, max_dirty: usize) -> BufferedBackend<MemBackend> {
    BufferedBackend::new(MemBackend::new(dev_size).unwrap(), config(page_size, max_dirty, 16)).unwrap()
}

#[test]
fn buffered_write_read_roundtrip() {
    let mut b = make_backend(4096, 1024, 4);
    let data = vec![0xAB; 512];
    b.write(0, &data).unwrap();
    assert_eq!(b.read(0, 512).unwrap(), data);
}

#[test]
fn resize_grows_device_and_inner() {
    let mut b = make_backend(4096, 1024, 4);
    let data = vec![0xAB; 512];
    b.write(0, &data).unwrap();
    // Grow the device.
    b.resize(8192).unwrap();
    assert_eq!(b.size().unwrap(), 8192);
    // Existing buffered data survives.
    assert_eq!(b.read(0, 512).unwrap(), data);
    // The newly-available region is now in bounds and reads back zeroed.
    assert!(b.read(4096, 512).unwrap().iter().all(|&x| x == 0));
    // A write into the grown region round-trips and persists on flush.
    let grown = vec![0xCD; 512];
    b.write(8192 - 512, &grown).unwrap();
    b.flush().unwrap();
    assert_eq!(b.read(8192 - 512, 512).unwrap(), grown);
    // Shrink is rejected.
    assert!(b.resize(4096).is_err(), "shrink rejected");
}

#[test]
fn buffered_write_spanning_pages() {
    let mut b = make_backend(4096, 1024, 4);
    // Write 2048 bytes starting at offset 512: spans pages 0 to 2.
    let data = vec![0xCD; 2048];
    b.write(512, &data).unwrap();
    assert_eq!(b.read(512, 2048).unwrap(), data);
}

#[test]
fn buffered_flush_persists_to_inner() {
    let mut inner = Handle::new(4096);
    let mut b = BufferedBackend::new(inner.clone(), config(1024, 4, 16)).unwrap();
    let data = vec![0xEF; 512];
    b.write(0, &data).unwrap();
    // Before flush, inner should still be zeros.
    assert!(inner.read(0, 512).unwrap().iter().all(|&x| x == 0));
    b.flush().unwrap();
    // After flush, inner should have our data.
    assert_eq!(inner.read(0, 512).unwrap(), data);
}

#[test]
fn auto_flush_on_limit() {
    let mut inner = Handle::new(4096);
    let mut b = BufferedBackend::new(inner.clone(), config(1024, 2, 16)).unwrap();
    // Write to 3 different pages: should trigger auto-flush of the oldest.
    b.write(0, &vec![0x11; 512]).unwrap();
    b.write(1024, &vec![0x22; 512]).unwrap();
    b.write(2048, &vec![0x33; 512]).unwrap();
    // The first page (oldest) should have been flushed to inner.
    assert_eq!(inner.read(0, 512).unwrap(), vec![0x11; 512]);
    assert_eq!(b.dirty_list(), vec![1, 2]);
}

#[test]
fn concurrent_flush_persists_all_dirty_pages() {
    // Many dirty pages flushed at once must all reach the inner backend.
    const PAGES: u64 = 40;
    let page_size = 1024u64;
    let mut inner = Handle::new(PAGES * page_size);
    let mut b = BufferedBackend::new(inner.clone(), config(page_size, PAGES as usize, 8)).unwrap();
    for p in 0..PAGES {
        b.write(p * page_size, &vec![(p & 0xFF) as u8; page_size as usize]).unwrap();
    }
    b.flush().unwrap();
    for p in 0..PAGES {
        let got = inner.read(p * page_size, page_size).unwrap();
        assert_eq!(got, vec![(p & 0xFF) as u8; page_size as usize], "page {p}");
    }
}

#[test]
fn flush_concurrency_clamped_to_at_least_one() {
    // A configured concurrency of 0 must not skip pages; it is clamped up to 1.
    let mut inner = Handle::new(4096);
    let cfg = config(1024, 8, 0);
    assert_eq!(cfg.in_flight(), 1);
    let mut b = BufferedBackend::new(inner.clone(), cfg).unwrap();
    let data = vec![0x5A; 512];
    b.write(0, &data).unwrap();
    b.flush().unwrap();
    assert_eq!(inner.read(0, 512).unwrap(), data);
}

#[test]
fn clear_marks_dirty() {
    let mut b = make_backend(4096, 1024, 4);
    b.write(0, &vec![0xFF; 512]).unwrap();
    b.clear(0, 512).unwrap();
    assert!(b.read(0, 512).unwrap().iter().all(|&x| x == 0));
    assert_eq!(b.dirty_list(), vec![0]);
}

#[test]
fn buffered_out_of_bounds_is_rejected() {
    let mut b = make_backend(2048, 1024, 4);
    // Reads, writes and clears past dev_size must fail rather than silently
    // succeed or drop data.
    assert!(b.read(1536, 1024).is_err(), "read past end");
    assert!(b.write(1536, &vec![0u8; 1024]).is_err(), "write past end");
    assert!(b.clear(1536, 1024).is_err(), "clear past end");
}

#[test]
fn concurrent_writes_are_consistent() {
    // Writes to many pages under a small dirty limit: every one must survive.
    const PAGES: u64 = 32;
    let page_size = 1024u64;
    let mut inner = Handle::new(PAGES * page_size);
    let mut b = BufferedBackend::new(inner.clone(), config(page_size, 4, 16)).unwrap();
    for p in 0..PAGES {
        b.write(p * page_size, &vec![(p & 0xFF) as u8; 512]).unwrap();
    }
    b.flush().unwrap();
    // Every page's write must be readable both through the buffer and from the
    // inner backend after flush.
    for p in 0..PAGES {
        let byte = (p & 0xFF) as u8;
        assert!(b.read(p * page_size, 512).unwrap().iter().all(|&x| x == byte), "page {p}");
        assert!(inner.read(p * page_size, 512).unwrap().iter().all(|&x| x == byte), "page {p}");
    }
}

#[test]
fn background_flushes_come_due() {
    let second = 1_000_000_000u64;
    let cfg = BufferedConfig { idle_flush_secs: 10, force_flush_timeout_secs: 100, ..config(1024, 8, 1) };
    assert_eq!(cfg.check_interval_secs(), 5);
    let mut b = BufferedBackend::new(MemBackend::new(4096).unwrap(), cfg).unwrap();
    assert_eq!(b.flush_due(), FlushDue::No);
    b.advance(second);
    b.write(0, &vec![1u8; 512]).unwrap();
    b.advance(5 * second);
    assert_eq!(b.flush_due(), FlushDue::No);
    b.advance(11 * second);
    assert_eq!(b.flush_due(), FlushDue::Idle);
    b.flush().unwrap();
    assert_eq!(b.flush_due(), FlushDue::No);
    // Steady writes keep the buffer from being idle; the force timeout counts
    // from the last flush.
    for s in 12..112 {
        b.advance(s * second);
        b.write(0, &vec![2u8; 512]).unwrap();
    }
    assert_eq!(b.flush_due(), FlushDue::Force);
    assert_eq!(config(1024, 8, 1).check_interval_secs(), 0);
}

#[test]
fn buffer_configurations_are_checked() {
    let bad = |c: BufferedConfig| BufferedBackend::new(MemBackend::new(4096).unwrap(), c).is_err();
    assert!(bad(config(0, 4, 1)));
    assert!(bad(config(1000, 4, 1)));
    assert!(bad(config(1024, 0, 1)));
    let d = BufferedConfig::default();
    assert_eq!((d.page_size, d.max_dirty_pages, d.idle_flush_secs), (4194304, 64, 15));
}

#[test]
fn a_write_during_a_flush_is_not_lost() {
    let mut b = BufferedBackend::new(
        MemBackend::new(4096).unwrap(),
        BufferedConfig { page_size: 512, max_dirty_pages: 8, ..BufferedConfig::default() },
    )
    .unwrap();
    b.write(0, &vec![1u8; 512]).unwrap();
    let copy = b.begin_flush(0).unwrap();
    assert!(b.begin_flush(1).is_none(), "a page that is not dirty has nothing to flush");
    // The page changes while its copy is on the way: it stays dirty.
    b.write(0, &vec![2u8; 512]).unwrap();
    b.end_flush(&copy).unwrap();
    assert_eq!(b.dirty_list(), vec![0]);
    assert_eq!(b.inner().contents()[..512], [1u8; 512]);
    b.flush().unwrap();
    assert!(b.dirty_list().is_empty());
    assert_eq!(b.inner().contents()[..512], [2u8; 512]);
    // A copy that comes late changes nothing.
    b.end_flush(&copy).unwrap();
    assert_eq!(b.inner().contents()[..512], [2u8; 512]);
    // Without a change the page is clean afterwards.
    b.write(1024, &vec![3u8; 512]).unwrap();
    let copy = b.begin_flush(2).unwrap();
    b.end_flush(&copy).unwrap();
    assert!(b.dirty_list().is_empty());
    assert_eq!(b.inner().contents()[1024..1536], [3u8; 512]);
}

#[test]
fn a_forced_flush_counts_from_the_first_write() {
    let second = 1_000_000_000u64;
    let cfg = BufferedConfig { idle_flush_secs: 0, force_flush_timeout_secs: 600, ..config(1024, 8, 1) };
    let mut b = BufferedBackend::new(MemBackend::new(4096).unwrap(), cfg).unwrap();
    b.write(0, &vec![1u8; 512]).unwrap();
    b.advance(599 * second);
    assert_eq!(b.flush_due(), FlushDue::No);
    b.write(512, &vec![1u8; 512]).unwrap();
    b.advance(699 * second);
    b.write(512, &vec![2u8; 512]).unwrap();
    b.advance(700 * second);
    assert_eq!(b.flush_due(), FlushDue::Force);
    b.flush().unwrap();
    b.write(0, &vec![3u8; 512]).unwrap();
    b.advance(1299 * second);
    assert_eq!(b.flush_due(), FlushDue::No);
    b.advance(1300 * second);
    assert_eq!(b.flush_due(), FlushDue::Force);
}

#[test]
fn a_buffered_write_beyond_the_device_changes_nothing() {
    let mut b = BufferedBackend::new(MemBackend::new(2048).unwrap(), config(1024, 8, 1)).unwrap();
    b.write(1536, &vec![5u8; 512]).unwrap();
    assert!(b.write(1536, &vec![6u8; 1024]).is_err());
    assert!(b.clear(2048, 512).is_err());
    assert_eq!(b.read(1536, 512).unwrap(), vec![5u8; 512]);
}

#[test]
fn a_second_buffered_flush_writes_no_page() {
    let mut inner = Handle::new(2048);
    let mut b = BufferedBackend::new(inner.clone(), config(1024, 8, 1)).unwrap();
    b.write(0, &vec![5u8; 512]).unwrap();
    b.flush().unwrap();
    inner.write(0, &vec![9u8; 512]).unwrap();
    b.flush().unwrap();
    assert_eq!(inner.read(0, 512).unwrap(), vec![9u8; 512]);
}

use ublk_azblob::backend::cache_budget::{BudgetError, CacheBudget};
use ublk_azblob::backend::cache_index::{CacheIndex, IndexError};
use ublk_azblob::backend::mem::MemBackend;
use ublk_azblob::backend::BlobBackend;

/// The state file that the caches of a directory share.
struct Shared {
    text: String,
    live: Vec<u32>,
}

impl Shared {
    fn new() -> Self {
        Shared { text: String::new(), live: vec![100, 200] }
    }

    fn open(&mut self, owner: &str, max: u64) -> CacheBudget {
        let b = CacheBudget::open(owner, 100, max, &self.text, &self.live).unwrap().unwrap();
        self.text = b.text();
        b
    }

    fn charge(&mut self, b: &mut CacheBudget, bytes: u64) -> u64 {
        b.load(&self.text, &self.live);
        let over = b.charge(bytes);
        self.text = b.text();
        over
    }

    fn release(&mut self, b: &mut CacheBudget, bytes: u64) {
        b.load(&self.text, &self.live);
        b.release(bytes);
        self.text = b.text();
    }

    fn reset(&mut self, b: &mut CacheBudget, bytes: u64) -> u64 {
        b.load(&self.text, &self.live);
        let over = b.reset(bytes);
        self.text = b.text();
        over
    }

    fn total(&self, b: &mut CacheBudget) -> u64 {
        b.load(&self.text, &self.live);
        b.global_total()
    }

    fn drop_budget(&mut self, mut b: CacheBudget) {
        b.load(&self.text, &self.live);
        b.close();
        self.text = b.text();
    }

    fn index(&self, owner: &str, blob: &str, page: u64) -> CacheIndex {
        CacheIndex::open(owner, 100, blob, page, &self.text, &self.live).unwrap()
    }

    fn publish(&mut self, x: &mut CacheIndex, page_idx: u64, len: u64) {
        x.load(&self.text, &self.live);
        x.publish(page_idx, len);
        self.text = x.text();
    }

    fn read(
        &self,
        x: &mut CacheIndex,
        page_idx: u64,
        len: u64,
        files: &mut Vec<(String, MemBackend)>,
    ) -> Option<Vec<u8>> {
        x.load(&self.text, &self.live);
        x.read_peer_page(page_idx, len, files).unwrap()
    }
}

/// The data file of `owner`, whose page `i` is all `0xC0 + i`.
fn seed_data_file(owner: &str, page_size: u64, pages: u64) -> Vec<(String, MemBackend)> {
    let mut f = MemBackend::new(page_size * pages).unwrap();
    for i in 0..pages {
        f.write(i * page_size, &vec![0xC0u8 + i as u8; page_size as usize]).unwrap();
    }
    vec![(owner.to_string(), f)]
}

#[test]
fn unlimited_returns_none() {
    assert!(CacheBudget::open("a", 100, 0, "", &vec![100]).unwrap().is_none());
}

#[test]
fn admit_and_release_track_over_budget() {
    let mut s = Shared::new();
    let mut b = s.open("vol", 1000);
    assert_eq!(s.charge(&mut b, 400), 0);
    assert_eq!(s.charge(&mut b, 400), 0);
    // 800 + 400 = 1200: 200 over the 1000 limit.
    assert_eq!(s.charge(&mut b, 400), 200);
    assert_eq!(s.total(&mut b), 1200);
    s.release(&mut b, 300);
    assert_eq!(s.total(&mut b), 900);
    assert_eq!(b.max_bytes(), 1000);
}

#[test]
fn release_saturates_at_zero() {
    let mut s = Shared::new();
    let mut b = s.open("vol", 1000);
    s.charge(&mut b, 100);
    s.release(&mut b, 500);
    assert_eq!(s.total(&mut b), 0);
}

#[test]
fn two_owners_share_one_budget() {
    let mut s = Shared::new();
    let mut a = s.open("a", 1000);
    let mut c = s.open("c", 1000);
    assert_eq!(s.charge(&mut a, 600), 0);
    // c sees a's 600 already counted: 600 + 600 = 1200, 200 over.
    assert_eq!(s.charge(&mut c, 600), 200);
    assert_eq!(s.total(&mut a), 1200);
}

#[test]
fn drop_releases_owner_balance() {
    let mut s = Shared::new();
    let mut a = s.open("a", 1000);
    s.charge(&mut a, 500);
    let mut c = s.open("c", 1000);
    s.charge(&mut c, 300);
    assert_eq!(s.total(&mut a), 800);
    s.drop_budget(c);
    assert_eq!(s.total(&mut a), 500);
}

#[test]
fn reset_sets_absolute_balance() {
    let mut s = Shared::new();
    let mut b = s.open("vol", 1000);
    s.charge(&mut b, 900);
    assert_eq!(s.reset(&mut b, 200), 0);
    assert_eq!(s.total(&mut b), 200);
    assert_eq!(s.reset(&mut b, 1500), 500);
}

#[test]
fn dead_owner_entries_are_pruned() {
    let mut s = Shared::new();
    s.text = "ghost\t999999999\t5000\n".to_string();
    let mut b = s.open("vol", 1000);
    // The ghost's 5000 bytes must be reclaimed, leaving only our 0.
    assert_eq!(s.total(&mut b), 0);
}

#[test]
fn a_budget_registry_reads_back() {
    let mut s = Shared::new();
    let mut b = s.open("vol", 1000);
    s.charge(&mut b, 7);
    assert_eq!(s.text, "vol\t100\t7\n");
    s.text.push_str("garbage\nother\t200\t5\n");
    assert_eq!(s.total(&mut b), 12);
    assert!(matches!(
        CacheBudget::open("a\tb", 1, 10, "", &vec![]),
        Err(BudgetError::BadOwner(_))
    ));
}

#[test]
fn peer_read_serves_published_clean_page() {
    let page = 4096u64;
    let mut files = seed_data_file("a", page, 2);
    let mut s = Shared::new();
    let mut a = s.index("a", "blob", page);
    let mut b = s.index("b", "blob", page);

    // No peer has published page 0 yet.
    assert!(s.read(&mut b, 0, page, &mut files).is_none());

    // a publishes page 0; b can now read a's copy.
    s.publish(&mut a, 0, page);
    let buf = s.read(&mut b, 0, page, &mut files).unwrap();
    assert_eq!(buf.len() as u64, page);
    assert!(buf.iter().all(|&x| x == 0xC0));
}

#[test]
fn different_blob_identity_does_not_share() {
    let page = 4096u64;
    let mut files = seed_data_file("a", page, 1);
    let mut s = Shared::new();
    let mut a = s.index("a", "blobA", page);
    let mut b = s.index("b", "blobB", page);
    s.publish(&mut a, 0, page);
    // b caches a different blob, so a's page must not be visible to it.
    assert!(s.read(&mut b, 0, page, &mut files).is_none());
}

#[test]
fn own_entries_are_not_served_to_self() {
    let page = 4096u64;
    let mut files = seed_data_file("a", page, 1);
    let mut s = Shared::new();
    let mut a = s.index("a", "blob", page);
    s.publish(&mut a, 0, page);
    // A present page is served from our own file, never via the index.
    assert!(s.read(&mut a, 0, page, &mut files).is_none());
}

#[test]
fn unpublish_withdraws_page() {
    let page = 4096u64;
    let mut files = seed_data_file("a", page, 1);
    let mut s = Shared::new();
    let mut a = s.index("a", "blob", page);
    let mut b = s.index("b", "blob", page);
    s.publish(&mut a, 0, page);
    assert!(s.read(&mut b, 0, page, &mut files).is_some());
    a.load(&s.text, &s.live);
    a.unpublish(0);
    s.text = a.text();
    assert!(s.read(&mut b, 0, page, &mut files).is_none());
}

#[test]
fn length_mismatch_is_not_served() {
    // A short final page published with a different length must not satisfy a
    // full-page request.
    let page = 4096u64;
    let mut files = seed_data_file("a", page, 1);
    let mut s = Shared::new();
    let mut a = s.index("a", "blob", page);
    let mut b = s.index("b", "blob", page);
    s.publish(&mut a, 0, 512);
    assert!(s.read(&mut b, 0, page, &mut files).is_none());
}

#[test]
fn dead_peer_entries_are_pruned() {
    let page = 4096u64;
    let mut files = seed_data_file("ghost", page, 1);
    let mut s = Shared::new();
    s.text = "blob\t0\tghost\t999999999\t4096\n".to_string();
    let mut b = s.index("b", "blob", page);
    // The ghost is dead, so its page is pruned and not served.
    assert!(s.read(&mut b, 0, page, &mut files).is_none());
}

#[test]
fn drop_withdraws_all_pages() {
    let page = 4096u64;
    let mut files = seed_data_file("a", page, 2);
    let mut s = Shared::new();
    let mut b = s.index("b", "blob", page);
    let mut a = s.index("a", "blob", page);
    s.publish(&mut a, 0, page);
    s.publish(&mut a, 1, page);
    assert_eq!(a.published_count(), 2);
    a.load(&s.text, &s.live);
    a.unpublish_all();
    s.text = a.text();
    assert!(s.read(&mut b, 0, page, &mut files).is_none());
    assert!(s.read(&mut b, 1, page, &mut files).is_none());
}

#[test]
fn an_index_registry_reads_back() {
    let mut s = Shared::new();
    let mut a = s.index("a", "blob", 512);
    s.publish(&mut a, 3, 512);
    assert_eq!(s.text, "blob\t3\ta\t100\t512\n");
    let mut b = s.index("b", "blob", 512);
    b.load(&s.text, &s.live);
    assert_eq!(b.peer_of(3, 512).as_deref(), Some("a"));
    assert!(matches!(
        CacheIndex::open("a\n", 1, "blob", 512, "", &vec![]),
        Err(IndexError::BadOwner(_))
    ));
    assert!(matches!(
        CacheIndex::open("a", 1, "bl\tob", 512, "", &vec![]),
        Err(IndexError::BadIdentity(_))
    ));
}

#[test]
fn a_peer_file_that_is_too_short_is_passed_over() {
    let mut s = Shared::new();
    let mut a = s.index("vol-a", "blob", 1024);
    let mut b = s.index("vol-b", "blob", 1024);
    s.publish(&mut a, 3, 1024);
    // The file ends before page 3 does, or in the middle of it.
    let mut files = seed_data_file("vol-a", 1024, 2);
    assert_eq!(s.read(&mut b, 3, 1024, &mut files), None);
    let mut half = MemBackend::new(3 * 1024 + 512).unwrap();
    half.write(3 * 1024, &vec![9; 512]).unwrap();
    let mut files = vec![("vol-a".to_string(), half)];
    assert_eq!(s.read(&mut b, 3, 1024, &mut files), None);
    let mut files = seed_data_file("vol-a", 1024, 4);
    assert_eq!(s.read(&mut b, 3, 1024, &mut files), Some(vec![0xC3; 1024]));
}

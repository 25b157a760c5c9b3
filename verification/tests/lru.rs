use ublk_azblob::backend::cache_lru::Lru;

#[test]
fn lru_orders_by_recency() {
    let mut lru = Lru::default();
    lru.touch(0, true);
    lru.touch(1, true);
    lru.touch(2, true);
    assert_eq!(lru.pop_lru(None), Some(0));
    assert_eq!(lru.pop_lru(None), Some(1));
    assert_eq!(lru.pop_lru(None), Some(2));
    assert_eq!(lru.pop_lru(None), None);
}

#[test]
fn lru_touch_refreshes_recency() {
    let mut lru = Lru::default();
    lru.touch(0, true);
    lru.touch(1, true);
    lru.touch(2, true);
    lru.touch(0, true);
    assert_eq!(lru.pop_lru(None), Some(1));
    assert_eq!(lru.pop_lru(None), Some(2));
    assert_eq!(lru.pop_lru(None), Some(0));
}

#[test]
fn lru_dirty_pages_are_not_evictable() {
    let mut lru = Lru::default();
    lru.touch(0, true);
    lru.touch(1, false);
    lru.touch(2, true);
    assert!(lru.contains(1));
    assert_eq!(lru.pop_lru(None), Some(0));
    assert_eq!(lru.pop_lru(None), Some(2));
    assert_eq!(lru.pop_lru(None), None);
    assert!(lru.contains(1));
}

#[test]
fn lru_reclassifies_between_clean_and_dirty() {
    let mut lru = Lru::default();
    lru.touch(0, true);
    lru.touch(0, false);
    assert_eq!(lru.pop_lru(None), None);
    lru.touch(0, true);
    assert_eq!(lru.pop_lru(None), Some(0));
}

#[test]
fn lru_pop_skips_protected_page() {
    let mut lru = Lru::default();
    lru.touch(0, true);
    lru.touch(1, true);
    assert_eq!(lru.pop_lru(Some(0)), Some(1));
    assert!(lru.contains(0));
    assert_eq!(lru.pop_lru(Some(0)), None);
    assert_eq!(lru.pop_lru(None), Some(0));
}

#[test]
fn lru_clear_empties_all_state() {
    let mut lru = Lru::default();
    lru.touch(0, true);
    lru.touch(1, false);
    lru.clear();
    assert!(!lru.contains(0));
    assert!(!lru.contains(1));
    assert_eq!(lru.pop_lru(None), None);
}

#[test]
fn lru_empty_has_nothing() {
    let mut lru = Lru::default();
    assert!(!lru.contains(0));
    assert!(!lru.contains(u64::MAX));
    assert_eq!(lru.pop_lru(None), None);
    assert_eq!(lru.pop_lru(Some(0)), None);
}

#[test]
fn lru_pop_removes_from_contains() {
    let mut lru = Lru::default();
    lru.touch(7, true);
    assert!(lru.contains(7));
    assert_eq!(lru.pop_lru(None), Some(7));
    assert!(!lru.contains(7));
    assert_eq!(lru.pop_lru(None), None);
}

#[test]
fn lru_clean_page_is_popped_exactly_once() {
    let mut lru = Lru::default();
    lru.touch(3, true);
    lru.touch(3, true);
    lru.touch(3, true);
    assert_eq!(lru.pop_lru(None), Some(3));
    assert_eq!(lru.pop_lru(None), None);
    assert!(!lru.contains(3));
}

#[test]
fn lru_dirty_retouch_stays_non_evictable() {
    let mut lru = Lru::default();
    lru.touch(0, false);
    lru.touch(0, false);
    assert!(lru.contains(0));
    assert_eq!(lru.pop_lru(None), None);
}

#[test]
fn lru_protecting_dirty_page_still_evicts_clean() {
    let mut lru = Lru::default();
    lru.touch(0, false);
    lru.touch(1, true);
    assert_eq!(lru.pop_lru(Some(0)), Some(1));
    assert_eq!(lru.pop_lru(None), None);
    assert!(lru.contains(0));
}

#[test]
fn lru_clear_allows_fresh_reuse() {
    let mut lru = Lru::default();
    lru.touch(5, true);
    lru.touch(6, true);
    lru.clear();
    lru.touch(2, true);
    lru.touch(1, true);
    assert_eq!(lru.pop_lru(None), Some(2));
    assert_eq!(lru.pop_lru(None), Some(1));
    assert_eq!(lru.pop_lru(None), None);
}

#[test]
fn lru_mixed_workload_order() {
    let mut lru = Lru::default();
    lru.touch(0, true);
    lru.touch(1, false);
    lru.touch(2, true);
    lru.touch(3, true);
    lru.touch(0, true);
    lru.touch(1, true);
    assert_eq!(lru.pop_lru(Some(2)), Some(3));
    assert_eq!(lru.pop_lru(None), Some(2));
    assert_eq!(lru.pop_lru(None), Some(0));
    assert_eq!(lru.pop_lru(None), Some(1));
    assert_eq!(lru.pop_lru(None), None);
    assert!(!lru.contains(0));
    assert!(!lru.contains(1));
}

#[test]
fn lru_pin_keeps_the_page_but_not_as_a_victim() {
    let mut lru = Lru::default();
    lru.touch(4, true);
    lru.pin(4);
    assert!(lru.contains(4));
    assert_eq!(lru.ticks(), 1);
    assert_eq!(lru.pop_lru(None), None);
}

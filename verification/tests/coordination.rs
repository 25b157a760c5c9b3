use ublk_azblob::coordination::k8s::{
    acquired, held_by, plan_acquire, plan_release, plan_renew, sanitize_lease_name, AcquirePlan,
    LeaseRecord,
};
use ublk_azblob::text::duration_of;
use ublk_azblob::coordination::{
    AcquireError, BlobLock, ClusterAcquire, ClusterLease, CoordinationConfig, Coordinator,
    LockError, DEFAULT_LEASE_DURATION, DEFAULT_RECOVERY_TIMEOUT, NANOS_PER_SEC,
};

/// In-memory blob lock: tracks the current lease id (if any).
struct MemBlobLock {
    held: Option<String>,
    next: u64,
    fail: bool,
}

impl MemBlobLock {
    fn free() -> Self {
        MemBlobLock { held: None, next: 0, fail: false }
    }
    fn preheld() -> Self {
        MemBlobLock { held: Some("foreign-lease".to_string()), next: 0, fail: false }
    }
}

impl BlobLock for MemBlobLock {
    fn acquire(&mut self, duration_secs: i32) -> Result<String, LockError> {
        assert_eq!(duration_secs, 60);
        if self.fail {
            return Err(LockError::Other("service unavailable".to_string()));
        }
        if self.held.is_some() {
            return Err(LockError::Held);
        }
        self.next += 1;
        let id = format!("lease-{}", self.next);
        self.held = Some(id.clone());
        Ok(id)
    }
    fn renew(&mut self, lease_id: &str) -> Result<(), String> {
        match self.held.as_deref() {
            Some(id) if id == lease_id => Ok(()),
            _ => Err("not the lease holder".to_string()),
        }
    }
    fn release(&mut self, lease_id: &str) -> Result<(), String> {
        if self.held.as_deref() == Some(lease_id) {
            self.held = None;
        }
        Ok(())
    }
    fn break_lock(&mut self) -> Result<(), String> {
        self.held = None;
        Ok(())
    }
}

/// In-memory cluster lease with a configurable acquire outcome.
struct MemClusterLease {
    outcome_live: bool,
    released: bool,
}

impl MemClusterLease {
    fn free() -> Self {
        MemClusterLease { outcome_live: false, released: false }
    }
    fn live() -> Self {
        MemClusterLease { outcome_live: true, released: false }
    }
}

impl ClusterLease for MemClusterLease {
    fn try_acquire(&mut self) -> Result<ClusterAcquire, String> {
        if self.outcome_live {
            Ok(ClusterAcquire::HeldByLiveHolder {
                holder: "other-node".to_string(),
                since_renew: NANOS_PER_SEC,
            })
        } else {
            Ok(ClusterAcquire::Acquired)
        }
    }
    fn renew(&mut self) -> Result<(), String> {
        Ok(())
    }
    fn release(&mut self) -> Result<(), String> {
        self.released = true;
        Ok(())
    }
}

fn config() -> CoordinationConfig {
    CoordinationConfig::new("test-node", DEFAULT_LEASE_DURATION, DEFAULT_RECOVERY_TIMEOUT)
}

#[test]
fn acquires_both_when_free() {
    let coord = Coordinator::new(Some(MemClusterLease::free()), MemBlobLock::free(), config());
    let (mut coord, guard) = coord.acquire();
    let guard = guard.expect("should acquire");
    assert!(guard.clustered);
    assert_eq!(coord.blob.held.as_deref(), Some(guard.lease_id().as_str()));
    let (blob, cluster) = coord.renew(&guard);
    assert!(blob.is_ok());
    assert!(cluster.unwrap().is_ok());
    coord.release(guard);
    assert!(coord.blob.held.is_none(), "blob lease released on shutdown");
    assert!(coord.cluster.unwrap().released, "cluster lease released");
}

#[test]
fn refuses_when_peer_is_live() {
    let coord = Coordinator::new(Some(MemClusterLease::live()), MemBlobLock::free(), config());
    let (coord, guard) = coord.acquire();
    let err = guard.expect_err("should refuse");
    assert!(err.message().contains("live holder"), "unexpected error: {}", err.message());
    assert!(coord.blob.held.is_none(), "blob lease must not be taken");
}

#[test]
fn breaks_stale_blob_lease_to_take_over() {
    // Cluster lease is free (prior holder is past the recovery timeout), but the
    // blob lease is still held by the dead holder. We should break it and acquire
    // it for ourselves.
    let coord = Coordinator::new(Some(MemClusterLease::free()), MemBlobLock::preheld(), config());
    let (mut coord, guard) = coord.acquire();
    let guard = guard.expect("should take over");
    let held = coord.blob.held.clone().expect("blob lease held after take-over");
    assert_ne!(held, "foreign-lease", "should be our fresh lease id");
    coord.release(guard);
}

#[test]
fn blob_only_acquires_and_releases_without_cluster_lease() {
    // Single-process mode: no cluster lease, just the authoritative blob lock.
    let coord = Coordinator::<MemClusterLease, MemBlobLock>::new(None, MemBlobLock::free(), config());
    let (mut coord, guard) = coord.acquire();
    let guard = guard.expect("should acquire blob lock");
    assert!(!guard.clustered);
    assert!(coord.blob.held.is_some(), "blob lease should be held");
    assert!(coord.renew(&guard).1.is_none());
    coord.release(guard);
    assert!(coord.blob.held.is_none(), "blob lease released on shutdown");
}

#[test]
fn blob_only_refuses_held_lease_without_breaking() {
    // Without a cluster lease there is no liveness arbiter, so a held blob lease
    // must be respected (not broken): another live process may own it.
    let coord =
        Coordinator::<MemClusterLease, MemBlobLock>::new(None, MemBlobLock::preheld(), config());
    let (coord, guard) = coord.acquire();
    let err = guard.expect_err("should refuse");
    assert!(err.message().contains("already held"), "unexpected error: {}", err.message());
    assert_eq!(
        coord.blob.held.as_deref(),
        Some("foreign-lease"),
        "foreign blob lease must not be broken"
    );
}

#[test]
fn a_refused_blob_lease_gives_the_cluster_lease_back() {
    let mut lock = MemBlobLock::free();
    lock.fail = true;
    let coord = Coordinator::new(Some(MemClusterLease::free()), lock, config());
    let (coord, guard) = coord.acquire();
    match guard {
        Err(AcquireError::Blob(e)) => assert_eq!(e, "service unavailable"),
        _ => panic!("the lock is not available"),
    }
    assert!(coord.cluster.unwrap().released);
}

#[test]
fn config_clamps_and_derives_interval() {
    let cfg = CoordinationConfig::new("n", 600 * NANOS_PER_SEC, 90 * NANOS_PER_SEC);
    assert_eq!(cfg.lease_duration, 60 * NANOS_PER_SEC);
    assert_eq!(cfg.renew_interval, 20 * NANOS_PER_SEC);
    let cfg = CoordinationConfig::new("n", NANOS_PER_SEC, 90 * NANOS_PER_SEC);
    assert_eq!(cfg.lease_duration, 15 * NANOS_PER_SEC);
    assert_eq!(cfg.renew_interval, 5 * NANOS_PER_SEC);
    assert_eq!(cfg.lease_duration_secs(), 15);
    assert_eq!(cfg.recovery_timeout, 90 * NANOS_PER_SEC);
}

#[test]
fn sanitize_makes_valid_names() {
    assert_eq!(sanitize_lease_name("mycontainer/My_Blob.img"), "mycontainer-my-blob.img");
    assert_eq!(sanitize_lease_name("___"), "ublk-azblob");
    assert_eq!(sanitize_lease_name("UPPER"), "upper");
    assert_eq!(sanitize_lease_name("a/.b"), "a.b");
    assert_eq!(sanitize_lease_name("c/..//d-.e"), "c.d.e");
}

#[test]
fn long_lease_names_are_cut() {
    let long = "a".repeat(300);
    assert_eq!(sanitize_lease_name(&long).len(), 200);
}

#[test]
fn held_by_matches_identity() {
    let spec = LeaseRecord {
        holder_identity: Some("node-a".to_string()),
        age: None,
        lease_duration_seconds: None,
    };
    assert!(held_by(&spec, "node-a"));
    assert!(!held_by(&spec, "node-b"));
}

fn lease(holder: &str, age: Option<u128>) -> Option<LeaseRecord> {
    Some(LeaseRecord {
        holder_identity: Some(holder.to_string()),
        age,
        lease_duration_seconds: Some(60),
    })
}

#[test]
fn a_fresh_holder_is_left_its_lease() {
    assert!(matches!(plan_acquire(&None, "me", 10), AcquirePlan::Create));
    assert!(matches!(plan_acquire(&lease("me", Some(1)), "me", 10), AcquirePlan::Replace));
    assert!(matches!(plan_acquire(&lease("", Some(1)), "me", 10), AcquirePlan::Replace));
    assert!(matches!(plan_acquire(&lease("other", None), "me", 10), AcquirePlan::Replace));
    assert!(matches!(plan_acquire(&lease("other", Some(10)), "me", 10), AcquirePlan::Replace));
    match acquired(plan_acquire(&lease("other", Some(9)), "me", 10)) {
        ClusterAcquire::HeldByLiveHolder { holder, since_renew } => {
            assert_eq!(holder, "other");
            assert_eq!(since_renew, 9);
        }
        _ => panic!("a live holder keeps its lease"),
    }
    assert!(matches!(plan_renew(&None), AcquirePlan::Create));
    assert!(matches!(plan_renew(&lease("other", Some(1))), AcquirePlan::Replace));
    let cleared = plan_release(&lease("me", Some(1)), "me").unwrap();
    assert!(cleared.holder_identity.is_none());
    assert_eq!(cleared.lease_duration_seconds, Some(60));
    assert!(plan_release(&lease("other", Some(1)), "me").is_none());
    assert!(plan_release(&None, "me").is_none());
}

#[test]
fn a_live_holder_is_described() {
    let e = AcquireError::LiveHolder {
        holder: "n2".to_string(),
        since_renew: 1_500_000_000,
        recovery_timeout: 60 * NANOS_PER_SEC,
    };
    assert_eq!(
        e.message(),
        "cluster lease is held by a live holder 'n2' (renewed 1.5s ago, within the 60s \
         recovery timeout); another node is still using this volume — refusing to mount"
    );
}

#[test]
fn durations_are_written_in_their_unit() {
    for n in [0u128, 7, 999, 1_000, 1_050, 20_000_000, 999_999_999, 1_000_000_000, 61_000_000_001] {
        let d = std::time::Duration::from_nanos(n as u64);
        assert_eq!(duration_of(n), format!("{d:?}"));
    }
}

use ublk_azblob::backend::io_gateway::{
    build_limiter, charges, current_class, env_u64, env_usize, AzureIoGateway, ClassScopes,
    Direction, IoClass, IoGatewayConfig, Job, JobQueue,
};
use ublk_azblob::backend::MAX_PAGE_REQUEST_BYTES;
use ublk_azblob::table::Table;

fn env(v: &[(&str, &str)]) -> Table {
    Table::of(v.iter().map(|(a, b)| (a.to_string(), b.to_string())).collect())
}

#[test]
fn priority_order_is_foreground_flush_copy_warmup() {
    assert!(IoClass::ForegroundRead.priority() > IoClass::Flush.priority());
    assert!(IoClass::Flush.priority() > IoClass::Copy.priority());
    assert!(IoClass::Copy.priority() > IoClass::Warmup.priority());
    // Lowest is strictly the warm-up class.
    for c in [IoClass::ForegroundRead, IoClass::Flush, IoClass::Copy] {
        assert!(c.priority() > IoClass::Warmup.priority());
    }
}

#[test]
fn build_limiter_is_none_when_unlimited() {
    assert!(build_limiter(0).is_none(), "0 bps must mean unlimited");
}

#[test]
fn build_limiter_max_is_at_least_one_max_page() {
    // A sub-page-rate limit still lets a full max-page request through in one
    // round (max is floored at MAX_PAGE_REQUEST_BYTES) so it never deadlocks.
    let small = build_limiter(10 * 1024).expect("some");
    assert_eq!(small.max() as u64, MAX_PAGE_REQUEST_BYTES);
    // A rate above the page size raises max to the rate itself.
    let big = build_limiter(8 * MAX_PAGE_REQUEST_BYTES).expect("some");
    assert_eq!(big.max() as u64, 8 * MAX_PAGE_REQUEST_BYTES);
    assert_eq!(big.refill() as u64, 8 * MAX_PAGE_REQUEST_BYTES / 10);
}

#[test]
fn a_large_request_is_charged_in_rounds() {
    let l = build_limiter(1).expect("some");
    let max = MAX_PAGE_REQUEST_BYTES as usize;
    assert_eq!(l.refill(), 1);
    assert_eq!(charges(&l, 2 * max + 7), vec![max, max, 7]);
    assert_eq!(charges(&l, max), vec![max]);
    assert!(charges(&l, 0).is_empty());
}

#[test]
fn env_helpers_parse_and_filter() {
    assert_eq!(env_usize(&env(&[]), "V"), None, "unset gives none");
    assert_eq!(env_usize(&env(&[("V", "0")]), "V"), None, "0 is treated as unset");
    assert_eq!(env_usize(&env(&[("V", "not-a-number")]), "V"), None, "garbage gives none");
    assert_eq!(env_usize(&env(&[("V", "128")]), "V"), Some(128));

    assert_eq!(env_u64(&env(&[]), "V"), None);
    // 0 is a *valid* u64 here (unlimited bandwidth), unlike env_usize.
    assert_eq!(env_u64(&env(&[("V", "0")]), "V"), Some(0));
    assert_eq!(env_u64(&env(&[("V", "1048576")]), "V"), Some(1048576));
}

#[test]
fn auto_uses_cpu_count_and_honours_env_overrides() {
    let d = IoGatewayConfig::auto(12, &env(&[]));
    assert_eq!(d.concurrency, 12);
    assert_eq!(d.download_concurrency, d.concurrency);
    assert_eq!(d.upload_concurrency, d.concurrency);
    assert_eq!(d.download_bandwidth_bps, 0);
    assert_eq!(d.upload_bandwidth_bps, 0);

    // Explicit overrides are honoured; a 0 concurrency is treated as unset.
    let o = IoGatewayConfig::auto(
        12,
        &env(&[
            ("UBLK_IO_CONCURRENCY", "64"),
            ("UBLK_DOWNLOAD_CONCURRENCY", "0"),
            ("UBLK_UPLOAD_CONCURRENCY", "16"),
            ("UBLK_DOWNLOAD_BANDWIDTH", "1048576"),
        ]),
    );
    assert_eq!(o.concurrency, 64);
    assert_eq!(o.download_concurrency, 64, "0 falls back to shared budget");
    assert_eq!(o.upload_concurrency, 16);
    assert_eq!(o.download_bandwidth_bps, 1048576);
    assert_eq!(o.upload_bandwidth_bps, 0);

    assert_eq!(IoGatewayConfig::auto(0, &env(&[])).concurrency, 1);
}

#[test]
fn workers_stay_within_the_budget() {
    let c = |total, dl, ul| IoGatewayConfig {
        concurrency: total,
        download_concurrency: dl,
        upload_concurrency: ul,
        download_bandwidth_bps: 0,
        upload_bandwidth_bps: 0,
    };
    assert_eq!(c(8, 2, 99).workers(), (8, 2, 8));
    assert_eq!(c(0, 0, 0).workers(), (1, 1, 1));
}

#[test]
fn higher_priority_is_served_first() {
    let mut q = JobQueue::new();
    let copies: Vec<u64> = (0..4).map(|_| q.submit(IoClass::Copy).unwrap()).collect();
    let flush = q.submit(IoClass::Flush).unwrap();
    let (first, _) = q.take_next().unwrap();
    assert_eq!(first, flush, "the flush precedes the queued copies");
    let mut rest: Vec<u64> = (0..4).map(|_| q.take_next().unwrap().0).collect();
    rest.sort();
    assert_eq!(rest, copies);
    assert!(q.take_next().is_none());
}

#[test]
fn download_foreground_read_preempts_queued_warmup() {
    let mut q = JobQueue::new();
    for _ in 0..4 {
        q.submit(IoClass::Warmup).unwrap();
    }
    let high = q.submit(IoClass::ForegroundRead).unwrap();
    assert_eq!(q.take_next(), Some((high, IoClass::ForegroundRead.priority())));
    assert_eq!(q.take_next().unwrap().1, IoClass::Warmup.priority());
}

#[test]
fn class_scopes_nest() {
    let mut s = ClassScopes::new();
    assert_eq!(current_class(&s), None);
    s.enter(IoClass::Flush);
    assert_eq!(current_class(&s), Some(IoClass::Flush));
    s.enter(IoClass::Warmup);
    assert_eq!(current_class(&s), Some(IoClass::Warmup));
    s.leave();
    assert_eq!(current_class(&s), Some(IoClass::Flush));
    s.leave();
    assert_eq!(current_class(&s), None);
    s.leave();
    assert_eq!(current_class(&s), None);
}

fn gateway(total: u64, dl: u64, ul: u64) -> AzureIoGateway {
    AzureIoGateway::new(&IoGatewayConfig {
        concurrency: total,
        download_concurrency: dl,
        upload_concurrency: ul,
        download_bandwidth_bps: 0,
        upload_bandwidth_bps: 0,
    })
}

/// Start whatever may start now.
fn pump(gw: &mut AzureIoGateway, running: &mut Vec<Job>) {
    for d in [Direction::Download, Direction::Upload] {
        while let Some(j) = gw.take(d) {
            assert_eq!(j.direction, d);
            assert!(gw.paced(j));
            assert!(!gw.paced(j), "charged once");
        }
    }
    while let Some(j) = gw.start() {
        running.push(j);
    }
}

/// Run every job to its end; returns the jobs in the order in which they ended and
/// the most that were under way at once.
fn drain(gw: &mut AzureIoGateway) -> (Vec<Job>, usize) {
    let mut running = Vec::new();
    let mut ended = Vec::new();
    let mut most = 0;
    loop {
        pump(gw, &mut running);
        most = most.max(running.len());
        if running.is_empty() {
            return (ended, most);
        }
        let j = running.remove(0);
        assert!(gw.finish(j));
        assert!(!gw.finish(j), "finished once");
        ended.push(j);
    }
}

#[test]
fn concurrency_is_capped_by_worker_count() {
    // With a single upload worker, no two upload jobs overlap.
    let mut gw = gateway(1, 1, 1);
    for _ in 0..8 {
        gw.upload(IoClass::Flush).unwrap();
    }
    let (ended, most) = drain(&mut gw);
    assert_eq!(most, 1, "single worker must serialize");
    assert_eq!(ended.len(), 8);
}

#[test]
fn one_direction_can_use_the_whole_budget() {
    let mut gw = gateway(4, 4, 4);
    for _ in 0..4 {
        gw.download(IoClass::ForegroundRead).unwrap();
    }
    assert_eq!(drain(&mut gw).1, 4);
}

#[test]
fn combined_concurrency_capped_by_shared_budget() {
    let mut gw = gateway(2, 2, 2);
    for i in 0..8 {
        if i % 2 == 0 {
            gw.download(IoClass::ForegroundRead).unwrap();
        } else {
            gw.upload(IoClass::Flush).unwrap();
        }
    }
    let (ended, most) = drain(&mut gw);
    assert_eq!(most, 2);
    assert_eq!(ended.len(), 8);
}

#[test]
fn per_direction_ceiling_caps_one_direction_below_shared_budget() {
    let mut gw = gateway(8, 2, 8);
    for _ in 0..8 {
        gw.download(IoClass::ForegroundRead).unwrap();
    }
    assert_eq!(
        drain(&mut gw).1,
        2,
        "download_concurrency must cap downloads below the shared budget"
    );
}

#[test]
fn dropping_submission_cancels_work_and_frees_permit() {
    let mut gw = gateway(1, 1, 1);
    let a = gw.upload(IoClass::Flush).unwrap();
    let b = gw.upload(IoClass::Flush).unwrap();
    let mut running = Vec::new();
    pump(&mut gw, &mut running);
    assert_eq!(running, vec![a]);
    // A dropped job ends at once, and the next one runs.
    assert!(gw.finish(a));
    pump(&mut gw, &mut running);
    assert_eq!(running, vec![a, b]);
}

#[test]
fn jobs_start_in_the_order_in_which_they_are_ready() {
    let mut gw = gateway(2, 2, 2);
    let a = gw.download(IoClass::Copy).unwrap();
    let b = gw.download(IoClass::ForegroundRead).unwrap();
    assert_eq!(gw.take(Direction::Download), Some(b), "the read goes first");
    assert_eq!(gw.take(Direction::Download), Some(a));
    assert_eq!(gw.take(Direction::Download), None);
    assert_eq!(gw.start(), None, "neither has been charged");
    assert!(!gw.finish(a), "it is not under way");
    assert!(gw.paced(a));
    assert!(gw.paced(b));
    assert_eq!(gw.start(), Some(a));
    assert_eq!(gw.start(), Some(b));
    assert_eq!(gw.start(), None);
}

#[test]
fn e2e_mixed_workload_respects_shared_budget_and_completes() {
    let mut gw = gateway(3, 3, 3);
    let classes = [
        IoClass::ForegroundRead,
        IoClass::Flush,
        IoClass::Copy,
        IoClass::Warmup,
    ];
    let mut jobs = Vec::new();
    for i in 0..40usize {
        let class = classes[i % classes.len()];
        let job = if i % 2 == 0 {
            gw.download(class).unwrap()
        } else {
            gw.upload(class).unwrap()
        };
        jobs.push(job);
    }
    let (ended, most) = drain(&mut gw);
    assert_eq!(ended.len(), 40, "every job must run exactly once");
    for j in jobs {
        assert_eq!(ended.iter().filter(|e| **e == j).count(), 1);
    }
    assert!(most <= 3, "combined in-flight must never exceed the shared budget, saw {most}");
}

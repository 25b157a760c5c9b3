use ublk_azblob::backend::mem::MemBackend;
use ublk_azblob::backend::BlobBackend;
use ublk_azblob::bench::{
    end_phase, next_rand, op_offset, percentile, phase_result, run_op, sorted_samples, validate,
    Access, BenchConfig, BenchError, LatencyStats, Op, Phase, PhaseResult, Workload,
};

fn cfg(workload: Workload) -> BenchConfig {
    BenchConfig {
        size: 64 * 1024,
        block_size: 4096,
        count: 64,
        concurrency: 4,
        workload,
        create: true,
    }
}

/// Run the phases in one thread, handing the operations to the workers in turn.
fn run_bench(store: &mut MemBackend, cfg: &BenchConfig) -> Result<Vec<PhaseResult>, BenchError> {
    validate(cfg)?;
    if cfg.create {
        store.create(cfg.size).unwrap();
    }
    let mut results = Vec::new();
    for phase in cfg.workload.phases() {
        let mut latencies = Vec::new();
        let mut idx = 0u64;
        while run_op(store, cfg, &phase, idx, idx % cfg.concurrency).unwrap() {
            latencies.push(idx);
            idx += 1;
        }
        end_phase(store, &phase).unwrap();
        results.push(phase_result(cfg, &phase, &latencies, 1_000));
    }
    Ok(results)
}

#[test]
fn runs_all_phases() {
    let mut backend = MemBackend::new(64 * 1024).unwrap();
    let results = run_bench(&mut backend, &cfg(Workload::All)).unwrap();
    assert_eq!(results.len(), 4);
    for r in &results {
        assert_eq!(r.ops, 64);
        assert_eq!(r.bytes, 64 * 4096);
        assert_eq!(r.elapsed, 1_000);
    }
    // Every block was written by the sequential phase.
    assert!(backend.read(0, 64 * 1024).unwrap().iter().all(|&b| b == 0xA5));
}

#[test]
fn seq_and_rand_phase_names() {
    let mut backend = MemBackend::new(64 * 1024).unwrap();
    let seq = run_bench(&mut backend, &cfg(Workload::Sequential)).unwrap();
    assert_eq!(seq[0].name, "seq-write");
    assert_eq!(seq[1].name, "seq-read");

    let rand = run_bench(&mut backend, &cfg(Workload::Rand)).unwrap();
    assert_eq!(rand[0].name, "rand-write");
    assert_eq!(rand[1].name, "rand-read");
}

#[test]
fn rejects_invalid_config() {
    let mut backend = MemBackend::new(4096).unwrap();

    let mut bad = cfg(Workload::Sequential);
    bad.block_size = 500; // not a multiple of 512
    assert!(run_bench(&mut backend, &bad).is_err());

    let mut bad = cfg(Workload::Sequential);
    bad.count = 0;
    assert!(run_bench(&mut backend, &bad).is_err());

    let mut bad = cfg(Workload::Sequential);
    bad.concurrency = 0;
    assert!(run_bench(&mut backend, &bad).is_err());
}

#[test]
fn config_faults_are_named() {
    let mut c = cfg(Workload::All);
    c.block_size = 0;
    assert_eq!(validate(&c), Err(BenchError::BlockSize { block_size: 0 }));
    let mut c = cfg(Workload::All);
    c.size = 700;
    assert_eq!(validate(&c), Err(BenchError::Size { size: 700 }));
    let mut c = cfg(Workload::All);
    c.size = 512;
    assert_eq!(validate(&c), Err(BenchError::SizeBelowBlock { size: 512, block_size: 4096 }));
    let mut c = cfg(Workload::All);
    c.count = 0;
    assert_eq!(validate(&c), Err(BenchError::NoCount));
    let mut c = cfg(Workload::All);
    c.concurrency = 0;
    assert_eq!(validate(&c), Err(BenchError::NoConcurrency));
    assert_eq!(validate(&cfg(Workload::All)), Ok(()));
}

#[test]
fn percentile_nearest_rank() {
    let samples: Vec<u64> = (1..=100).map(|i| i * 1_000_000).collect();
    assert_eq!(percentile(&samples, 50), 50_000_000);
    assert_eq!(percentile(&samples, 99), 99_000_000);
    assert_eq!(percentile(&samples, 100), 100_000_000);
    assert_eq!(percentile(&samples, 0), 1_000_000);
    assert_eq!(percentile(&Vec::new(), 50), 0);
    assert_eq!(percentile(&vec![7], 95), 7);
}

#[test]
fn random_blocks_stay_in_range() {
    let nblocks = 16u64;
    for i in 0..1000 {
        assert!(next_rand(i) % nblocks < nblocks);
    }
}

#[test]
fn splitmix_reference_value() {
    // The first output of SplitMix64 from seed 0.
    assert_eq!(next_rand(0), 0xE220A8397B1DCDAF);
}

#[test]
fn offsets_stay_in_the_blob() {
    let c = cfg(Workload::All);
    for access in [Access::Sequential, Access::Random] {
        let phase = Phase { op: Op::Read, access };
        for idx in 0..c.count {
            let o = op_offset(&c, &phase, idx, 3).unwrap();
            assert_eq!(o % 512, 0);
            assert!(o + c.block_size <= c.size);
        }
        assert_eq!(op_offset(&c, &phase, c.count, 3), None);
    }
    let seq = Phase { op: Op::Read, access: Access::Sequential };
    assert_eq!(op_offset(&c, &seq, 17, 0), Some(4096));
}

#[test]
fn latencies_are_summed_up() {
    let s = LatencyStats::from_sorted(&vec![30, 10, 20, 40]);
    assert_eq!(s, LatencyStats { min: 10, avg: 25, p50: 20, p95: 40, p99: 40, max: 40 });
    assert_eq!(
        LatencyStats::from_sorted(&Vec::new()),
        LatencyStats { min: 0, avg: 0, p50: 0, p95: 0, p99: 0, max: 0 }
    );
    assert_eq!(sorted_samples(&vec![3, 1, 2, 1]), vec![1, 1, 2, 3]);
}

#[test]
fn latency_figures_do_not_depend_on_the_order() {
    let a = LatencyStats::from_sorted(&vec![5, 1, 4, 2, 3]);
    let b = LatencyStats::from_sorted(&vec![1, 2, 3, 4, 5]);
    assert_eq!((a.min, a.avg, a.p50, a.p95, a.p99, a.max), (1, 3, 3, 5, 5, 5));
    assert_eq!((b.min, b.avg, b.p50, b.p95, b.p99, b.max), (1, 3, 3, 5, 5, 5));
}

#[test]
fn neighbouring_seeds_do_not_collide() {
    let mut seen: Vec<u64> = (0..1000).map(next_rand).collect();
    seen.sort();
    seen.dedup();
    assert_eq!(seen.len(), 1000);
}

//! Throughput, IOPS and latency benchmark rules.
//!
//! The benchmark issues a fixed number of fixed-size operations with a number of
//! concurrent workers. This module says which phases there are, which block each
//! operation touches, and how the latencies are summed up; times are in
//! nanoseconds.

use vstd::prelude::*;

use crate::backend;
use crate::backend::{BackendError, BlobBackend, Request};
use crate::text;

verus! {

/// Which workloads to run, in order.
#[derive(Clone, Copy, Debug, PartialEq, Eq, Structural)]
pub enum Workload {
    /// Sequential writes, then sequential reads.
    Sequential,
    /// Random writes, then random reads.
    Rand,
    /// All four phases: sequential write/read then random write/read.
    All,
}

/// An operation of the benchmark.
#[derive(Clone, Copy, Debug, PartialEq, Eq, Structural)]
pub enum Op {
    Read,
    Write,
}

/// How blocks are picked.
#[derive(Clone, Copy, Debug, PartialEq, Eq, Structural)]
pub enum Access {
    Sequential,
    Random,
}

/// One phase of a workload.
#[derive(Clone, Copy, Debug, PartialEq, Eq, Structural)]
pub struct Phase {
    pub op: Op,
    pub access: Access,
}

impl Op {
    /// The operation's name.
    pub fn label(self) -> (r: String)
        ensures
            r@ == (match self {
                Op::Read => "read"@,
                Op::Write => "write"@,
            }),
    {
        match self {
            Op::Read => "read".to_owned(),
            Op::Write => "write".to_owned(),
        }
    }
}

impl Access {
    /// The access pattern's name.
    pub fn label(self) -> (r: String)
        ensures
            r@ == (match self {
                Access::Sequential => "seq"@,
                Access::Random => "rand"@,
            }),
    {
        match self {
            Access::Sequential => "seq".to_owned(),
            Access::Random => "rand".to_owned(),
        }
    }
}

impl Phase {
    /// The phase's name, such as `seq-write`.
    pub open spec fn name(self) -> Seq<char> {
        (match self.access {
            Access::Sequential => "seq"@,
            Access::Random => "rand"@,
        }) + "-"@ + (match self.op {
            Op::Read => "read"@,
            Op::Write => "write"@,
        })
    }

    /// The phase's name, such as `seq-write`.
    pub fn label(self) -> (r: String)
        ensures
            r@ == self.name(),
    {
        text::concat3(self.access.label().as_str(), "-", self.op.label().as_str())
    }
}

/// A write phase and a read phase of one access pattern.
pub open spec fn write_then_read(access: Access) -> Seq<Phase> {
    seq![Phase { op: Op::Write, access }, Phase { op: Op::Read, access }]
}

impl Workload {
    /// The phases of a workload, in order.
    pub open spec fn plan(self) -> Seq<Phase> {
        match self {
            Workload::Sequential => write_then_read(Access::Sequential),
            Workload::Rand => write_then_read(Access::Random),
            Workload::All => write_then_read(Access::Sequential) + write_then_read(Access::Random),
        }
    }

    /// The phases of a workload, in order.
    pub fn phases(self) -> (r: Vec<Phase>)
        ensures
            r@ == self.plan(),
    {
        let mut r: Vec<Phase> = Vec::new();
        if self != Workload::Rand {
            r.push(Phase { op: Op::Write, access: Access::Sequential });
            r.push(Phase { op: Op::Read, access: Access::Sequential });
        }
        if self != Workload::Sequential {
            r.push(Phase { op: Op::Write, access: Access::Random });
            r.push(Phase { op: Op::Read, access: Access::Random });
        }
        assert(r@ =~= self.plan());
        r
    }
}

/// Benchmark parameters.
#[derive(Clone, Copy, Debug, PartialEq, Eq, Structural)]
pub struct BenchConfig {
    /// Size of the backing blob in bytes (multiple of 512).
    pub size: u64,
    /// I/O size per operation in bytes (multiple of 512).
    pub block_size: u64,
    /// Number of operations to issue per phase.
    pub count: u64,
    /// Number of concurrent in-flight operations (queue depth).
    pub concurrency: u64,
    /// Which workloads to run.
    pub workload: Workload,
    /// Provision (create/overwrite) the blob before benchmarking.
    pub create: bool,
}

/// What is wrong with benchmark parameters.
#[derive(Clone, Copy, Debug, PartialEq, Eq, Structural)]
pub enum BenchError {
    BlockSize { block_size: u64 },
    Size { size: u64 },
    SizeBelowBlock { size: u64, block_size: u64 },
    NoCount,
    NoConcurrency,
}

/// The first thing that is wrong with benchmark parameters, if any.
pub open spec fn fault_of(c: BenchConfig) -> Option<BenchError> {
    if c.block_size == 0 || c.block_size % 512 != 0 {
        Some(BenchError::BlockSize { block_size: c.block_size })
    } else if c.size == 0 || c.size % 512 != 0 {
        Some(BenchError::Size { size: c.size })
    } else if c.size < c.block_size {
        Some(BenchError::SizeBelowBlock { size: c.size, block_size: c.block_size })
    } else if c.count == 0 {
        Some(BenchError::NoCount)
    } else if c.concurrency == 0 {
        Some(BenchError::NoConcurrency)
    } else {
        None
    }
}

/// Check benchmark parameters.
pub fn validate(cfg: &BenchConfig) -> (r: Result<(), BenchError>)
    ensures
        r == (match fault_of(*cfg) {
            Some(e) => Err(e),
            None => Ok(()),
        }),
{
    if cfg.block_size == 0 || cfg.block_size % 512 != 0 {
        return Err(BenchError::BlockSize { block_size: cfg.block_size });
    }
    if cfg.size == 0 || cfg.size % 512 != 0 {
        return Err(BenchError::Size { size: cfg.size });
    }
    if cfg.size < cfg.block_size {
        return Err(BenchError::SizeBelowBlock { size: cfg.size, block_size: cfg.block_size });
    }
    if cfg.count == 0 {
        return Err(BenchError::NoCount);
    }
    if cfg.concurrency == 0 {
        return Err(BenchError::NoConcurrency);
    }
    Ok(())
}

/// The SplitMix64 output of a seed.
pub open spec fn splitmix(seed: u64) -> u64 {
    let z = seed.wrapping_add(0x9E3779B97F4A7C15);
    let z = (z ^ (z >> 30)).wrapping_mul(0xBF58476D1CE4E5B9);
    let z = (z ^ (z >> 27)).wrapping_mul(0x94D049BB133111EB);
    z ^ (z >> 31)
}

/// Deterministic stateless hash of `seed` using the SplitMix64 finalizer.
pub fn next_rand(seed: u64) -> (r: u64)
    ensures
        r == splitmix(seed),
{
    let z: u64 = seed.wrapping_add(0x9E3779B97F4A7C15);
    let z: u64 = (z ^ (z >> 30)).wrapping_mul(0xBF58476D1CE4E5B9);
    let z: u64 = (z ^ (z >> 27)).wrapping_mul(0x94D049BB133111EB);
    z ^ (z >> 31)
}

/// The block that operation `idx` of a worker touches.
pub open spec fn block_for(access: Access, idx: u64, worker: u64, nblocks: u64) -> u64 {
    match access {
        Access::Sequential => idx % nblocks,
        Access::Random => splitmix(idx.wrapping_add(worker)) % nblocks,
    }
}

/// The byte offset that operation `idx` of a worker touches; nothing once all
/// operations of the phase are issued.
pub fn op_offset(cfg: &BenchConfig, phase: &Phase, idx: u64, worker: u64) -> (r: Option<u64>)
    requires
        fault_of(*cfg) is None,
    ensures
        match r {
            Some(o) => {
                &&& idx < cfg.count
                &&& o == block_for(phase.access, idx, worker, cfg.size / cfg.block_size)
                    * cfg.block_size
                &&& o % 512 == 0
                &&& o + cfg.block_size <= cfg.size
            },
            None => idx >= cfg.count,
        },
{
    if idx >= cfg.count {
        return None;
    }
    let n: u64 = cfg.size / cfg.block_size;
    proof {
        vstd::arithmetic::div_mod::lemma_div_non_zero(cfg.size as int, cfg.block_size as int);
        assert(n > 0);
    }
    let block: u64 = match phase.access {
        Access::Sequential => idx % n,
        Access::Random => next_rand(idx.wrapping_add(worker)) % n,
    };
    proof {
        lemma_block(block as int, n as int, cfg.block_size as int, cfg.size as int);
    }
    Some(block * cfg.block_size)
}

proof fn lemma_block(block: int, n: int, size: int, total: int)
    requires
        0 <= block < n,
        0 < size,
        size % 512 == 0,
        0 <= total,
        n == total / size,
    ensures
        0 <= block * size,
        block * size + size <= total,
        (block * size) % 512 == 0,
{
    vstd::arithmetic::div_mod::lemma_fundamental_div_mod(total, size);
    vstd::arithmetic::div_mod::lemma_mod_bound(total, size);
    assert((block + 1) * size <= n * size) by (nonlinear_arith)
        requires
            block + 1 <= n,
            size > 0,
    ;
    assert((block + 1) * size == block * size + size) by (nonlinear_arith);
    assert(n * size == size * n) by (nonlinear_arith);
    assert(0 <= block * size) by (nonlinear_arith)
        requires
            0 <= block,
            0 < size,
    ;
    let k = size / 512;
    assert(size == 512 * k);
    assert(block * size == 512 * (block * k)) by (nonlinear_arith)
        requires
            size == 512 * k,
    ;
    vstd::arithmetic::div_mod::lemma_mod_multiples_basic(block * k, 512);
    assert(512 * (block * k) == (block * k) * 512) by (nonlinear_arith);
}

/// The byte that write operations fill blocks with: non-zero, so that a write does
/// not look like a request to clear.
pub const FILL: u8 = 0xA5;

/// A block of fill bytes.
pub open spec fn payload_of(c: BenchConfig) -> Seq<u8> {
    Seq::new(c.block_size as nat, |i: int| FILL)
}

/// Perform operation `idx` of a worker. Returns whether there was one left to do.
pub fn run_op<B: BlobBackend>(
    store: &mut B,
    cfg: &BenchConfig,
    phase: &Phase,
    idx: u64,
    worker: u64,
) -> (r: Result<bool, BackendError>)
    requires
        fault_of(*cfg) is None,
        old(store).valid(),
        cfg.block_size <= usize::MAX,
    ensures
        final(store).valid(),
        idx >= cfg.count ==> r == Ok::<bool, BackendError>(false) && *final(store) == *old(store),
        idx < cfg.count ==> (r matches Ok(more) ==> more),
        phase.op is Read ==> final(store).bytes() == old(store).bytes(),
        idx < cfg.count && r is Ok && phase.op is Write ==> {
            let at = block_for(phase.access, idx, worker, cfg.size / cfg.block_size)
                * cfg.block_size;
            final(store).bytes() == backend::splice(old(store).bytes(), at, payload_of(*cfg))
        },
        idx < cfg.count ==> {
            let offset = (block_for(phase.access, idx, worker, cfg.size / cfg.block_size)
                * cfg.block_size) as u64;
            final(store).requests() == old(store).requests().push(
                match phase.op {
                    Op::Read => Request::Read { offset, len: cfg.block_size },
                    Op::Write => Request::Write { offset, data: payload_of(*cfg) },
                },
            )
        },
        final(store).faults() >= old(store).faults(),
        r is Err && backend::fair_range(0, cfg.size as int, old(store).bytes().len() as int)
            ==> final(store).faults() > old(store).faults(),
{
    let offset: u64 = match op_offset(cfg, phase, idx, worker) {
        Some(o) => o,
        None => {
            return Ok(false);
        },
    };
    match phase.op {
        Op::Read => match store.read(offset, cfg.block_size) {
            Ok(_) => Ok(true),
            Err(e) => Err(e),
        },
        Op::Write => {
            let payload: Vec<u8> = vec![FILL; cfg.block_size as usize];
            assert(payload@ =~= payload_of(*cfg));
            match store.write(offset, &payload) {
                Ok(()) => Ok(true),
                Err(e) => Err(e),
            }
        },
    }
}

/// End a phase: writes are flushed, so that a store that buffers counts their
/// durable cost.
pub fn end_phase<B: BlobBackend>(store: &mut B, phase: &Phase) -> (r: Result<(), BackendError>)
    requires
        old(store).valid(),
    ensures
        final(store).valid(),
        final(store).bytes() == old(store).bytes(),
        phase.op is Read ==> r is Ok && *final(store) == *old(store),
        phase.op is Write && r is Ok ==> final(store).durable() == final(store).bytes(),
        phase.op is Write ==> final(store).requests() == old(store).requests().push(Request::Flush),
        r is Err && old(store).bytes().len() % 512 == 0 ==> final(store).faults() > old(store).faults(),
{
    match phase.op {
        Op::Read => Ok(()),
        Op::Write => store.flush(),
    }
}

/// Every operation of the benchmark stays within the blob and is aligned.
pub proof fn operations_stay_in_the_blob(c: BenchConfig, access: Access, idx: u64, worker: u64)
    requires
        fault_of(c) is None,
    ensures
        ({
            let block = block_for(access, idx, worker, c.size / c.block_size);
            &&& block < c.size / c.block_size
            &&& block * c.block_size + c.block_size <= c.size
            &&& (block * c.block_size) % 512 == 0
        }),
{
    let n = c.size / c.block_size;
    vstd::arithmetic::div_mod::lemma_div_non_zero(c.size as int, c.block_size as int);
    let block = block_for(access, idx, worker, n);
    assert(block < n);
    lemma_block(block as int, n as int, c.block_size as int, c.size as int);
}

// ── Results ─────────────────────────────────────────────────────────────────

/// Latency distribution of a phase, in nanoseconds.
#[derive(Clone, Copy, Debug, PartialEq, Eq, Structural)]
pub struct LatencyStats {
    pub min: u64,
    pub avg: u64,
    pub p50: u64,
    pub p95: u64,
    pub p99: u64,
    pub max: u64,
}

/// Summary of a single benchmark phase.
#[derive(Debug)]
pub struct PhaseResult {
    pub name: String,
    pub ops: u64,
    pub bytes: u64,
    /// Duration of the phase, in nanoseconds.
    pub elapsed: u64,
    pub latencies: LatencyStats,
}

/// The samples are in ascending order.
pub open spec fn ascending(s: Seq<u64>) -> bool {
    forall|i: int, j: int| 0 <= i <= j < s.len() ==> #[trigger] s[i] <= #[trigger] s[j]
}

/// The sum of the samples.
pub open spec fn total(s: Seq<u64>) -> nat
    decreases s.len(),
{
    if s.len() == 0 {
        0
    } else {
        total(s.drop_last()) + s.last() as nat
    }
}

/// The nearest rank of a percentage among `n` samples, counted from 1.
pub open spec fn nearest_rank(pct: int, n: int) -> int {
    (pct * n + 99) / 100
}

/// The nearest-rank percentile of ascending samples; 0 without samples.
pub open spec fn percentile_of(s: Seq<u64>, pct: int) -> u64 {
    if s.len() == 0 {
        0
    } else {
        let rank = nearest_rank(pct, s.len() as int);
        let i = if rank < 1 {
            0
        } else if rank > s.len() {
            s.len() - 1
        } else {
            rank - 1
        };
        s[i]
    }
}

/// Nearest-rank percentile of ascending samples.
pub fn percentile(sorted: &Vec<u64>, pct: u64) -> (r: u64)
    requires
        pct <= 100,
    ensures
        r == percentile_of(sorted@, pct as int),
{
    let n: usize = sorted.len();
    if n == 0 {
        return 0;
    }
    proof {
        assert(pct * n <= 100 * n) by (nonlinear_arith)
            requires
                pct <= 100,
                0 <= n,
        ;
        assert(0 <= pct * n) by (nonlinear_arith)
            requires
                0 <= pct,
                0 <= n,
        ;
    }
    let rank: u128 = (pct as u128 * n as u128 + 99) / 100;
    let i: usize = if rank < 1 {
        0
    } else if rank > n as u128 {
        n - 1
    } else {
        (rank - 1) as usize
    };
    sorted[i]
}

/// Put one more sample into its place.
fn insert_sample(v: &mut Vec<u64>, x: u64)
    requires
        ascending(old(v)@),
    ensures
        ascending(final(v)@),
        final(v)@.to_multiset() == old(v)@.to_multiset().insert(x),
        final(v)@.len() == old(v)@.len() + 1,
{
    let mut k: usize = v.len();
    while k > 0 && v[k - 1] > x
        invariant
            k <= v@.len(),
            ascending(v@),
            forall|i: int| k <= i < v@.len() ==> #[trigger] v@[i] > x,
        decreases k,
    {
        k = k - 1;
    }
    let ghost had = v@;
    v.insert(k, x);
    proof {
        broadcast use vstd::seq_lib::group_to_multiset_ensures;

        assert(v@ == had.insert(k as int, x));
        assert forall|i: int, j: int| 0 <= i <= j < v@.len() implies #[trigger] v@[i]
            <= #[trigger] v@[j] by {
            let a = if i < k {
                i
            } else {
                i - 1
            };
            let b = if j < k {
                j
            } else {
                j - 1
            };
            if i != k && j != k {
                assert(v@[i] == had[a] && v@[j] == had[b]);
            } else if i == k && j != k {
                assert(v@[j] == had[j - 1]);
            } else if j == k && i != k {
                assert(v@[i] == had[i]);
                assert(had[i] <= had[k - 1]);
            }
        }
    }
}

/// The samples in ascending order.
pub fn sorted_samples(samples: &Vec<u64>) -> (r: Vec<u64>)
    ensures
        ascending(r@),
        r@.to_multiset() == samples@.to_multiset(),
        r@.len() == samples@.len(),
{
    let mut r: Vec<u64> = Vec::new();
    let mut i: usize = 0;
    proof {
        assert(samples@.take(0) =~= r@);
    }
    while i < samples.len()
        invariant
            i <= samples@.len(),
            ascending(r@),
            r@.len() == i,
            r@.to_multiset() == samples@.take(i as int).to_multiset(),
        decreases samples@.len() - i,
    {
        proof {
            broadcast use vstd::seq_lib::group_to_multiset_ensures;

            assert(samples@.take(i + 1) =~= samples@.take(i as int).push(samples@[i as int]));
        }
        insert_sample(&mut r, samples[i]);
        i = i + 1;
    }
    assert(samples@.take(samples@.len() as int) =~= samples@);
    r
}

/// The statistics of ascending samples.
pub open spec fn stats_of(s: Seq<u64>) -> LatencyStats {
    if s.len() == 0 {
        LatencyStats { min: 0, avg: 0, p50: 0, p95: 0, p99: 0, max: 0 }
    } else {
        LatencyStats {
            min: s[0],
            avg: (total(s) / s.len()) as u64,
            p50: percentile_of(s, 50),
            p95: percentile_of(s, 95),
            p99: percentile_of(s, 99),
            max: s.last(),
        }
    }
}

proof fn lemma_total_bound(s: Seq<u64>)
    ensures
        total(s) <= s.len() * u64::MAX,
    decreases s.len(),
{
    if s.len() > 0 {
        lemma_total_bound(s.drop_last());
        assert(s.len() * u64::MAX == (s.len() - 1) * u64::MAX + u64::MAX) by (nonlinear_arith);
    }
}

impl LatencyStats {
    /// The statistics of samples, which are put in ascending order first.
    pub fn from_sorted(samples: &Vec<u64>) -> (r: Self)
        ensures
            exists|s: Seq<u64>|
                #[trigger] ascending(s) && s.to_multiset() == samples@.to_multiset() && r
                    == stats_of(s),
    {
        let sorted = sorted_samples(samples);
        let n: usize = sorted.len();
        if n == 0 {
            let r = LatencyStats { min: 0, avg: 0, p50: 0, p95: 0, p99: 0, max: 0 };
            assert(r == stats_of(sorted@));
            return r;
        }
        let mut sum: u128 = 0;
        let mut i: usize = 0;
        while i < n
            invariant
                n == sorted@.len(),
                i <= n,
                sum == total(sorted@.take(i as int)),
                sum <= i * u64::MAX,
            decreases n - i,
        {
            proof {
                assert(sorted@.take(i + 1).drop_last() == sorted@.take(i as int));
                assert(sorted@.take(i + 1).last() == sorted@[i as int]);
                assert((i + 1) * u64::MAX == i * u64::MAX + u64::MAX) by (nonlinear_arith);
                assert(i * u64::MAX <= u64::MAX * u64::MAX) by (nonlinear_arith)
                    requires
                        0 <= i <= u64::MAX,
                ;
            }
            sum = sum + sorted[i] as u128;
            i = i + 1;
        }
        proof {
            assert(sorted@.take(n as int) =~= sorted@);
            lemma_total_bound(sorted@);
            assert(sum / (n as u128) <= u64::MAX) by (nonlinear_arith)
                requires
                    sum <= n * u64::MAX,
                    n > 0,
            ;
        }
        let avg: u64 = (sum / n as u128) as u64;
        let r = LatencyStats {
            min: sorted[0],
            avg,
            p50: percentile(&sorted, 50),
            p95: percentile(&sorted, 95),
            p99: percentile(&sorted, 99),
            max: sorted[n - 1],
        };
        assert(r == stats_of(sorted@));
        r
    }
}

/// The summary of a phase from the latencies of its operations. The byte count
/// fits in 64 bits on every device.
pub fn phase_result(cfg: &BenchConfig, phase: &Phase, latencies: &Vec<u64>, elapsed: u64) -> (r:
    PhaseResult)
    requires
        latencies@.len() * cfg.block_size <= u64::MAX,
    ensures
        r.name@ == phase.name(),
        r.ops == latencies@.len(),
        r.bytes == latencies@.len() * cfg.block_size,
        r.elapsed == elapsed,
        exists|s: Seq<u64>|
            #[trigger] ascending(s) && s.to_multiset() == latencies@.to_multiset() && r.latencies
                == stats_of(s),
{
    let ops: u64 = latencies.len() as u64;
    PhaseResult {
        name: phase.label(),
        ops,
        bytes: ops * cfg.block_size,
        elapsed,
        latencies: LatencyStats::from_sorted(latencies),
    }
}

// ── Laws ────────────────────────────────────────────────────────────────────

/// Multiplying by `c` is undone by multiplying by its inverse.
proof fn lemma_mul_undone(x: u64, c: u64, inverse: u64, k: int)
    requires
        c * inverse == 1 + k * 0x1_0000_0000_0000_0000,
    ensures
        (x.wrapping_mul(c) * inverse) % 0x1_0000_0000_0000_0000 == x,
{
    let m: int = 0x1_0000_0000_0000_0000;
    assert(x.wrapping_mul(c) == (x * c) % m);
    vstd::arithmetic::div_mod::lemma_mul_mod_noop_left(x * c, inverse as int, m);
    assert(x * c * inverse == m * (x * k) + x) by (nonlinear_arith)
        requires
            c * inverse == 1 + k * m,
    ;
    vstd::arithmetic::div_mod::lemma_mod_multiples_vanish(x * k, x as int, m);
    vstd::arithmetic::div_mod::lemma_small_mod(x as nat, m as nat);
}

/// Different seeds have different outputs.
pub proof fn seeds_do_not_collide(a: u64, b: u64)
    requires
        a != b,
    ensures
        splitmix(a) != splitmix(b),
{
    let a0 = a.wrapping_add(0x9E3779B97F4A7C15);
    let b0 = b.wrapping_add(0x9E3779B97F4A7C15);
    assert(a0 != b0);
    let a1 = a0 ^ (a0 >> 30);
    let b1 = b0 ^ (b0 >> 30);
    assert(a0 ^ (a0 >> 30) == b0 ^ (b0 >> 30) ==> a0 == b0) by (bit_vector);
    let a2 = a1.wrapping_mul(0xBF58476D1CE4E5B9);
    let b2 = b1.wrapping_mul(0xBF58476D1CE4E5B9);
    lemma_mul_undone(a1, 0xBF58476D1CE4E5B9, 0x96DE1B173F119089, 8125545580553827436);
    lemma_mul_undone(b1, 0xBF58476D1CE4E5B9, 0x96DE1B173F119089, 8125545580553827436);
    assert(a2 != b2);
    let a3 = a2 ^ (a2 >> 27);
    let b3 = b2 ^ (b2 >> 27);
    assert(a2 ^ (a2 >> 27) == b2 ^ (b2 >> 27) ==> a2 == b2) by (bit_vector);
    let a4 = a3.wrapping_mul(0x94D049BB133111EB);
    let b4 = b3.wrapping_mul(0x94D049BB133111EB);
    lemma_mul_undone(a3, 0x94D049BB133111EB, 0x319642B2D24D8EC3, 2077064247507883091);
    lemma_mul_undone(b3, 0x94D049BB133111EB, 0x319642B2D24D8EC3, 2077064247507883091);
    assert(a4 != b4);
    assert(a4 ^ (a4 >> 31) == b4 ^ (b4 >> 31) ==> a4 == b4) by (bit_vector);
}

proof fn lemma_total_between(s: Seq<u64>, n: int)
    requires
        ascending(s),
        1 <= n <= s.len(),
    ensures
        n * s[0] <= total(s.take(n)) <= n * s.last(),
    decreases n,
{
    let (lo, hi) = (s[0] as int, s.last() as int);
    assert(s.take(n).drop_last() =~= s.take(n - 1));
    assert(s.take(n).last() == s[n - 1]);
    assert(total(s.take(n)) == total(s.take(n - 1)) + s[n - 1]);
    assert(lo <= s[n - 1] <= hi);
    if n > 1 {
        lemma_total_between(s, n - 1);
        assert(n * lo == (n - 1) * lo + lo) by (nonlinear_arith);
        assert(n * hi == (n - 1) * hi + hi) by (nonlinear_arith);
    } else {
        assert(total(s.take(0)) == 0);
        assert(n * lo == lo && n * hi == hi) by (nonlinear_arith)
            requires
                n == 1,
        ;
    }
}

/// The figures of ascending samples are in order, and all but the average are
/// samples.
pub proof fn latency_figures_are_ordered(s: Seq<u64>)
    requires
        ascending(s),
        s.len() > 0,
    ensures
        ({
            let r = stats_of(s);
            &&& r.min <= r.p50 <= r.p95 <= r.p99 <= r.max
            &&& r.min <= r.avg <= r.max
            &&& s.contains(r.min) && s.contains(r.p50) && s.contains(r.p95) && s.contains(r.p99)
                && s.contains(r.max)
            &&& forall|i: int| 0 <= i < s.len() ==> r.min <= #[trigger] s[i] <= r.max
        }),
{
    let n = s.len() as int;
    lemma_total_between(s, n);
    assert(s.take(n) =~= s);
    let t = total(s) as int;
    vstd::arithmetic::div_mod::lemma_div_is_ordered(n * s[0], t, n);
    vstd::arithmetic::div_mod::lemma_div_is_ordered(t, n * s.last(), n);
    vstd::arithmetic::div_mod::lemma_div_multiples_vanish(s[0] as int, n);
    vstd::arithmetic::div_mod::lemma_div_multiples_vanish(s.last() as int, n);
}

/// Samples in another order have the same figures.
pub proof fn the_order_of_samples_does_not_matter(a: Seq<u64>, b: Seq<u64>)
    requires
        ascending(a),
        ascending(b),
        a.to_multiset() == b.to_multiset(),
    ensures
        stats_of(a) == stats_of(b),
{
    let leq = |x: u64, y: u64| x <= y;
    assert(vstd::relations::sorted_by(a, leq));
    assert(vstd::relations::sorted_by(b, leq));
    vstd::seq_lib::lemma_sorted_unique(a, b, leq);
}

/// A workload writes before it reads; all workloads together are the sequential one
/// and then the random one.
pub proof fn a_workload_writes_before_it_reads()
    ensures
        Workload::Sequential.plan().len() == 2,
        Workload::Sequential.plan()[0] == (Phase { op: Op::Write, access: Access::Sequential }),
        Workload::Sequential.plan()[1] == (Phase { op: Op::Read, access: Access::Sequential }),
        Workload::Rand.plan().len() == 2,
        Workload::Rand.plan()[0] == (Phase { op: Op::Write, access: Access::Random }),
        Workload::Rand.plan()[1] == (Phase { op: Op::Read, access: Access::Random }),
        Workload::All.plan() == Workload::Sequential.plan() + Workload::Rand.plan(),
{
}

/// A phase is named by its access and its operation.
pub proof fn a_phase_is_named_by_what_it_does(p: Phase)
    ensures
        p == (Phase { op: Op::Write, access: Access::Sequential }) ==> p.name() == "seq-write"@,
        p == (Phase { op: Op::Read, access: Access::Sequential }) ==> p.name() == "seq-read"@,
        p == (Phase { op: Op::Write, access: Access::Random }) ==> p.name() == "rand-write"@,
        p == (Phase { op: Op::Read, access: Access::Random }) ==> p.name() == "rand-read"@,
{
    reveal_strlit("seq");
    reveal_strlit("rand");
    reveal_strlit("-");
    reveal_strlit("read");
    reveal_strlit("write");
    reveal_strlit("seq-write");
    reveal_strlit("seq-read");
    reveal_strlit("rand-write");
    reveal_strlit("rand-read");
    assert("seq"@ + "-"@ + "write"@ =~= "seq-write"@);
    assert("seq"@ + "-"@ + "read"@ =~= "seq-read"@);
    assert("rand"@ + "-"@ + "write"@ =~= "rand-write"@);
    assert("rand"@ + "-"@ + "read"@ =~= "rand-read"@);
}

/// Parameters are in order when the block and the blob are whole sectors, the blob
/// holds a block, and there is something to do and someone to do it.
pub proof fn parameters_are_refused_for_a_reason(c: BenchConfig)
    ensures
        fault_of(c) is None <==> c.block_size >= 512 && c.block_size % 512 == 0 && c.size % 512 == 0
            && c.size >= c.block_size && c.count > 0 && c.concurrency > 0,
        fault_of(c) is Some && fault_of(c)->0 is BlockSize <==> c.block_size == 0 || c.block_size
            % 512 != 0,
        fault_of(c) is Some && fault_of(c)->0 is Size ==> c.size == 0 || c.size % 512 != 0,
        fault_of(c) is Some && fault_of(c)->0 is SizeBelowBlock ==> c.size < c.block_size,
        fault_of(c) is Some && fault_of(c)->0 is NoCount ==> c.count == 0,
        fault_of(c) is Some && fault_of(c)->0 is NoConcurrency ==> c.concurrency == 0,
{
}

/// Sequential operations touch the blocks one after the other and begin again at
/// the first; the worker does not matter.
pub proof fn sequential_operations_follow_each_other(idx: u64, worker: u64, other: u64, n: u64)
    requires
        n > 0,
        idx < u64::MAX,
    ensures
        block_for(Access::Sequential, 0, worker, n) == 0,
        block_for(Access::Sequential, (idx + 1) as u64, worker, n) == (if block_for(
            Access::Sequential,
            idx,
            worker,
            n,
        ) + 1 == n {
            0int
        } else {
            block_for(Access::Sequential, idx, worker, n) + 1
        }),
        block_for(Access::Sequential, idx, worker, n) == block_for(Access::Sequential, idx, other, n),
{
    let (i, m) = (idx as int, n as int);
    vstd::arithmetic::div_mod::lemma_small_mod(0, n as nat);
    vstd::arithmetic::div_mod::lemma_fundamental_div_mod(i, m);
    vstd::arithmetic::div_mod::lemma_mod_bound(i, m);
    let (q, r) = (i / m, i % m);
    assert(m * q == q * m) by (nonlinear_arith);
    if r + 1 == m {
        assert((q + 1) * m == q * m + m) by (nonlinear_arith);
        vstd::arithmetic::div_mod::lemma_fundamental_div_mod_converse(i + 1, m, q + 1, 0);
    } else {
        vstd::arithmetic::div_mod::lemma_fundamental_div_mod_converse(i + 1, m, q, r + 1);
    }
}

/// A random operation's block is the hash of its number and its worker together,
/// among the blocks that there are.
pub proof fn a_random_block_is_a_hash_of_the_operation(idx: u64, worker: u64, n: u64)
    requires
        n > 0,
        idx + worker <= u64::MAX,
    ensures
        block_for(Access::Random, idx, worker, n) == splitmix((idx + worker) as u64) % n,
        block_for(Access::Random, idx, worker, n) == block_for(Access::Random, worker, idx, n),
        block_for(Access::Random, idx, worker, n) < n,
{
}

/// Blocks are filled with bytes that are not zero, one block long.
pub proof fn a_block_is_filled_with_something(c: BenchConfig, i: int)
    requires
        0 <= i < c.block_size,
    ensures
        payload_of(c).len() == c.block_size,
        payload_of(c)[i] == 165,
{
}

/// A percentile is the smallest sample that at least that share of the samples does
/// not exceed, by rank: the sample whose rank reaches the share first.
pub proof fn a_percentile_is_the_nearest_rank(s: Seq<u64>, pct: int) -> (k: int)
    requires
        s.len() > 0,
        0 < pct <= 100,
    ensures
        0 <= k < s.len(),
        percentile_of(s, pct) == s[k],
        100 * (k + 1) >= pct * s.len(),
        100 * k < pct * s.len(),
{
    let n = s.len() as int;
    assert(pct * n <= 100 * n) by (nonlinear_arith)
        requires
            pct <= 100,
            0 <= n,
    ;
    assert(pct * n >= n) by (nonlinear_arith)
        requires
            pct >= 1,
            0 <= n,
    ;
    nearest_rank(pct, n) - 1
}

/// The figures of samples: the percentiles are the 50th, the 95th and the 99th, and
/// the average is the sum shared out, without the remainder.
pub proof fn latency_figures_say_what_they_are(s: Seq<u64>)
    requires
        ascending(s),
        s.len() > 0,
    ensures
        stats_of(s).p50 == percentile_of(s, 50),
        stats_of(s).p95 == percentile_of(s, 95),
        stats_of(s).p99 == percentile_of(s, 99),
        stats_of(s).avg * s.len() <= total(s) < (stats_of(s).avg + 1) * s.len(),
        stats_of(Seq::empty()) == (LatencyStats { min: 0, avg: 0, p50: 0, p95: 0, p99: 0, max: 0 }),
{
    let n = s.len() as int;
    let t = total(s) as int;
    latency_figures_are_ordered(s);
    lemma_total_between(s, n);
    assert(s.take(n) =~= s);
    vstd::arithmetic::div_mod::lemma_div_is_ordered(t, n * s.last(), n);
    vstd::arithmetic::div_mod::lemma_div_multiples_vanish(s.last() as int, n);
    vstd::arithmetic::div_mod::lemma_fundamental_div_mod(t, n);
    vstd::arithmetic::div_mod::lemma_mod_bound(t, n);
    let a = t / n;
    assert(stats_of(s).avg == a);
    assert(n * a == a * n) by (nonlinear_arith);
    assert((a + 1) * n == a * n + n) by (nonlinear_arith);
}

/// The sum of the samples grows by each sample.
pub proof fn a_sum_grows_by_each_sample(s: Seq<u64>, x: u64)
    ensures
        total(Seq::empty()) == 0,
        total(s.push(x)) == total(s) + x,
{
    assert(s.push(x).drop_last() =~= s);
}

} // verus!

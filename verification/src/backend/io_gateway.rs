//! Rules of the Azure I/O gateway.
//!
//! Every Azure download (read) and upload (write, clear, server-side copy) goes
//! through one gateway, which enforces, for each direction, a byte-rate ceiling,
//! a concurrency cap within a shared budget, and the priority order
//! **foreground read > flush > copy > warm-up**.

use vstd::multiset::Multiset;
use vstd::prelude::*;

use crate::backend::MAX_PAGE_REQUEST_BYTES;
use crate::table;
use crate::table::Table;
use crate::text;

verus! {

// ── Classes ─────────────────────────────────────────────────────────────────

/// What kind of work a request is; it picks a scheduling priority *within* the
/// request's direction.
#[derive(Clone, Copy, Debug, PartialEq, Eq, Structural)]
pub enum IoClass {
    /// On-demand read serving a block-device request: highest priority.
    ForegroundRead,
    /// Write-back of dirty cache or buffer pages to the blob.
    Flush,
    /// Bulk template copy.
    Copy,
    /// Background cache warm-up: lowest priority.
    Warmup,
}

impl IoClass {
    /// Scheduling priority; higher is served first.
    pub open spec fn rank(self) -> u8 {
        match self {
            IoClass::ForegroundRead => 3,
            IoClass::Flush => 2,
            IoClass::Copy => 1,
            IoClass::Warmup => 0,
        }
    }

    /// Scheduling priority; higher is served first.
    pub fn priority(self) -> (r: u8)
        ensures
            r == self.rank(),
    {
        match self {
            IoClass::ForegroundRead => 3,
            IoClass::Flush => 2,
            IoClass::Copy => 1,
            IoClass::Warmup => 0,
        }
    }
}

/// Foreground reads come before flushes, flushes before copies, copies before
/// warm-up.
pub proof fn priorities_are_ordered()
    ensures
        IoClass::ForegroundRead.rank() > IoClass::Flush.rank(),
        IoClass::Flush.rank() > IoClass::Copy.rank(),
        IoClass::Copy.rank() > IoClass::Warmup.rank(),
{
}

/// The nested scopes in which a producer runs, each under a class.
#[derive(Debug)]
pub struct ClassScopes {
    classes: Vec<IoClass>,
}

impl ClassScopes {
    /// The classes of the open scopes, the outermost first.
    pub closed spec fn open_scopes(&self) -> Seq<IoClass> {
        self.classes@
    }

    /// No scope is open.
    pub fn new() -> (r: Self)
        ensures
            r.open_scopes() == Seq::<IoClass>::empty(),
    {
        ClassScopes { classes: Vec::new() }
    }

    /// Open a scope under `class`.
    pub fn enter(&mut self, class: IoClass)
        ensures
            final(self).open_scopes() == old(self).open_scopes().push(class),
    {
        self.classes.push(class);
    }

    /// Close the innermost scope, if one is open.
    pub fn leave(&mut self)
        ensures
            final(self).open_scopes() == (if old(self).open_scopes().len() > 0 {
                old(self).open_scopes().drop_last()
            } else {
                old(self).open_scopes()
            }),
    {
        match self.classes.pop() {
            Some(_) => {},
            None => {},
        }
    }
}

/// The class of the innermost open scope; nothing outside of every scope (an
/// on-demand block read).
pub fn current_class(scopes: &ClassScopes) -> (r: Option<IoClass>)
    ensures
        r == (if scopes.open_scopes().len() > 0 {
            Some(scopes.open_scopes().last())
        } else {
            None
        }),
{
    let n: usize = scopes.classes.len();
    if n > 0 {
        Some(scopes.classes[n - 1])
    } else {
        None
    }
}

/// A scope hides the enclosing one while it is open and gives way to it
/// afterwards.
pub proof fn scopes_nest(s: Seq<IoClass>, class: IoClass)
    ensures
        s.push(class).last() == class,
        s.push(class).drop_last() == s,
{
    assert(s.push(class).drop_last() =~= s);
}

// ── Configuration ───────────────────────────────────────────────────────────

/// Configuration of the gateway's two directions.
#[derive(Clone, Copy, Debug, PartialEq, Eq, Structural)]
pub struct IoGatewayConfig {
    /// Total number of concurrent Azure requests across *both* directions.
    pub concurrency: u64,
    /// Per-direction ceiling on concurrent downloads.
    pub download_concurrency: u64,
    /// Per-direction ceiling on concurrent uploads.
    pub upload_concurrency: u64,
    /// Download bandwidth ceiling in bytes/sec (`0` = unlimited).
    pub download_bandwidth_bps: u64,
    /// Upload bandwidth ceiling in bytes/sec (`0` = unlimited).
    pub upload_bandwidth_bps: u64,
}

/// A number set in the environment.
pub open spec fn env_number(env: Map<Seq<char>, Seq<char>>, name: Seq<char>) -> Option<nat> {
    match table::value(env, name) {
        Some(s) => text::number(s, u64::MAX as nat),
        None => None,
    }
}

/// A positive number set in the environment, or a default.
pub open spec fn env_positive(
    env: Map<Seq<char>, Seq<char>>,
    name: Seq<char>,
    default: nat,
) -> nat {
    match env_number(env, name) {
        Some(n) => if n > 0 {
            n
        } else {
            default
        },
        None => default,
    }
}

/// The number that the variable `name` is set to, if it is set to one.
pub fn env_u64(env: &Table, name: &str) -> (r: Option<u64>)
    ensures
        match r {
            Some(n) => env_number(env@, name@) == Some(n as nat),
            None => env_number(env@, name@) is None,
        },
{
    match env.get(name) {
        Some(s) => text::parse_u64(s.as_str()),
        None => None,
    }
}

/// The positive number that the variable `name` is set to; 0 counts as unset.
pub fn env_usize(env: &Table, name: &str) -> (r: Option<u64>)
    ensures
        match r {
            Some(n) => n > 0 && env_number(env@, name@) == Some(n as nat),
            None => env_number(env@, name@) is None || env_number(env@, name@) == Some(0nat),
        },
{
    match env_u64(env, name) {
        Some(n) => if n > 0 {
            Some(n)
        } else {
            None
        },
        None => None,
    }
}

impl IoGatewayConfig {
    /// Size the shared budget to the number of processors `cpus`, with each
    /// direction allowed to use all of it, and bandwidth unlimited. The variables
    /// `UBLK_IO_CONCURRENCY`, `UBLK_DOWNLOAD_CONCURRENCY`,
    /// `UBLK_UPLOAD_CONCURRENCY`, `UBLK_DOWNLOAD_BANDWIDTH` and
    /// `UBLK_UPLOAD_BANDWIDTH` override the defaults; a concurrency of `0` counts
    /// as unset.
    pub fn auto(cpus: u64, env: &Table) -> (r: Self)
        ensures
            r.concurrency == env_positive(
                env@,
                "UBLK_IO_CONCURRENCY"@,
                if cpus > 0 {
                    cpus as nat
                } else {
                    1
                },
            ),
            r.download_concurrency == env_positive(
                env@,
                "UBLK_DOWNLOAD_CONCURRENCY"@,
                r.concurrency as nat,
            ),
            r.upload_concurrency == env_positive(
                env@,
                "UBLK_UPLOAD_CONCURRENCY"@,
                r.concurrency as nat,
            ),
            r.download_bandwidth_bps == (match env_number(env@, "UBLK_DOWNLOAD_BANDWIDTH"@) {
                Some(n) => n,
                None => 0,
            }),
            r.upload_bandwidth_bps == (match env_number(env@, "UBLK_UPLOAD_BANDWIDTH"@) {
                Some(n) => n,
                None => 0,
            }),
    {
        let cpu: u64 = if cpus > 0 {
            cpus
        } else {
            1
        };
        let concurrency: u64 = match env_usize(env, "UBLK_IO_CONCURRENCY") {
            Some(n) => n,
            None => cpu,
        };
        let download_concurrency: u64 = match env_usize(env, "UBLK_DOWNLOAD_CONCURRENCY") {
            Some(n) => n,
            None => concurrency,
        };
        let upload_concurrency: u64 = match env_usize(env, "UBLK_UPLOAD_CONCURRENCY") {
            Some(n) => n,
            None => concurrency,
        };
        let download_bandwidth_bps: u64 = match env_u64(env, "UBLK_DOWNLOAD_BANDWIDTH") {
            Some(n) => n,
            None => 0,
        };
        let upload_bandwidth_bps: u64 = match env_u64(env, "UBLK_UPLOAD_BANDWIDTH") {
            Some(n) => n,
            None => 0,
        };
        IoGatewayConfig {
            concurrency,
            download_concurrency,
            upload_concurrency,
            download_bandwidth_bps,
            upload_bandwidth_bps,
        }
    }

    /// The shared budget, and the workers of the download and upload directions:
    /// at least one each, and none beyond the budget.
    pub fn workers(&self) -> (r: (u64, u64, u64))
        ensures
            r.0 == (if self.concurrency > 0 {
                self.concurrency
            } else {
                1
            }),
            r.1 == clamped(self.download_concurrency, r.0),
            r.2 == clamped(self.upload_concurrency, r.0),
            1 <= r.1 <= r.0,
            1 <= r.2 <= r.0,
    {
        let total: u64 = if self.concurrency > 0 {
            self.concurrency
        } else {
            1
        };
        (total, clamp(self.download_concurrency, total), clamp(self.upload_concurrency, total))
    }
}

/// `n` between 1 and `total`.
pub open spec fn clamped(n: u64, total: u64) -> u64 {
    if n < 1 {
        1
    } else if n > total {
        total
    } else {
        n
    }
}

fn clamp(n: u64, total: u64) -> (r: u64)
    requires
        total >= 1,
    ensures
        r == clamped(n, total),
        1 <= r <= total,
{
    if n < 1 {
        1
    } else if n > total {
        total
    } else {
        n
    }
}

// ── Bandwidth ───────────────────────────────────────────────────────────────

/// A token bucket of the `leaky_bucket` crate.
#[verifier::external_type_specification]
#[verifier::external_body]
pub struct ExRateLimiter(leaky_bucket::RateLimiter);

/// The most tokens that a bucket holds.
pub uninterp spec fn limiter_max(l: leaky_bucket::RateLimiter) -> nat;

/// The tokens that a bucket gains per interval.
pub uninterp spec fn limiter_refill(l: leaky_bucket::RateLimiter) -> nat;

/// `n`, or the largest token count that the buckets handle.
pub open spec fn balance(n: nat) -> nat {
    if n <= isize::MAX {
        n
    } else {
        isize::MAX as nat
    }
}

/// `leaky_bucket::RateLimiter::builder`, its `interval`, `refill`, `max` and
/// `initial` settings and `build`: a bucket that starts full. Its capacity and
/// refill are the given ones, cut at `isize::MAX`. When it is refilled depends on
/// the clock and is not stated. The interval and the refill must not be zero.
#[verifier::external_body]
fn make_limiter(interval_ms: u64, refill: usize, max: usize) -> (r: leaky_bucket::RateLimiter)
    requires
        interval_ms > 0,
        refill > 0,
    ensures
        limiter_max(r) == balance(max as nat),
        limiter_refill(r) == balance(refill as nat),
{
    leaky_bucket::RateLimiter::builder()
        .interval(std::time::Duration::from_millis(interval_ms))
        .refill(refill)
        .max(max)
        .initial(max)
        .build()
}

/// `leaky_bucket::RateLimiter::max`: the most tokens that the bucket holds.
#[verifier::external_body]
fn capacity_of(l: &leaky_bucket::RateLimiter) -> (r: usize)
    ensures
        r == limiter_max(*l),
{
    l.max()
}

/// The tokens that a bucket for `bps` bytes/sec gains every 100 ms.
pub open spec fn refill_for(bps: u64) -> nat {
    if bps / 10 > 0 {
        (bps / 10) as nat
    } else {
        1
    }
}

/// The tokens that a bucket for `bps` bytes/sec holds: at least one largest page
/// request, so that none waits forever.
pub open spec fn capacity_for(bps: u64) -> nat {
    if bps > MAX_PAGE_REQUEST_BYTES {
        bps as nat
    } else {
        MAX_PAGE_REQUEST_BYTES as nat
    }
}

/// A bucket for `bandwidth_bps` bytes/sec, or nothing when unlimited. Tokens are
/// bytes; the bucket starts full, so that a burst up to its capacity is let
/// through at once.
pub fn build_limiter(bandwidth_bps: u64) -> (r: Option<leaky_bucket::RateLimiter>)
    requires
        bandwidth_bps <= usize::MAX,
    ensures
        match r {
            None => bandwidth_bps == 0,
            Some(l) => {
                &&& bandwidth_bps > 0
                &&& limiter_max(l) == balance(capacity_for(bandwidth_bps))
                &&& limiter_refill(l) == balance(refill_for(bandwidth_bps))
            },
        },
{
    if bandwidth_bps == 0 {
        return None;
    }
    let tenth: u64 = bandwidth_bps / 10;
    let refill: u64 = if tenth > 0 {
        tenth
    } else {
        1
    };
    let max: u64 = if bandwidth_bps > MAX_PAGE_REQUEST_BYTES {
        bandwidth_bps
    } else {
        MAX_PAGE_REQUEST_BYTES
    };
    Some(make_limiter(100, refill as usize, max as usize))
}

/// The sum of a list of charges.
pub open spec fn charged(s: Seq<usize>) -> nat
    decreases s.len(),
{
    if s.len() == 0 {
        0
    } else {
        charged(s.drop_last()) + s.last() as nat
    }
}

/// The rounds in which a request of `bytes` bytes is charged: each within the
/// bucket's capacity (a larger one would wait forever), and together the full
/// cost of the request.
pub fn charges(l: &leaky_bucket::RateLimiter, bytes: usize) -> (r: Vec<usize>)
    requires
        limiter_max(*l) > 0,
    ensures
        charged(r@) == bytes,
        forall|i: int| 0 <= i < r@.len() ==> 0 < #[trigger] r@[i] <= limiter_max(*l),
        forall|i: int| 0 <= i < r@.len() - 1 ==> #[trigger] r@[i] == limiter_max(*l),
{
    let max: usize = capacity_of(l);
    let mut r: Vec<usize> = Vec::new();
    let mut remaining: usize = bytes;
    while remaining > 0
        invariant
            max == limiter_max(*l),
            max > 0,
            remaining <= bytes,
            charged(r@) + remaining == bytes,
            forall|i: int| 0 <= i < r@.len() ==> 0 < #[trigger] r@[i] <= max,
            remaining > 0 ==> forall|i: int| 0 <= i < r@.len() ==> #[trigger] r@[i] == max,
            forall|i: int| 0 <= i < r@.len() - 1 ==> #[trigger] r@[i] == max,
        decreases remaining,
    {
        let round: usize = if remaining < max {
            remaining
        } else {
            max
        };
        let ghost had = r@;
        r.push(round);
        assert(r@.drop_last() == had);
        remaining = remaining - round;
    }
    r
}

// ── Queue ───────────────────────────────────────────────────────────────────

/// The sending side of a priority channel.
#[verifier::external_type_specification]
#[verifier::external_body]
#[verifier::reject_recursive_types(I)]
#[verifier::reject_recursive_types(P)]
pub struct ExSender<I, P: Ord>(async_priority_channel::Sender<I, P>);

/// The receiving side of a priority channel.
#[verifier::external_type_specification]
#[verifier::external_body]
#[verifier::reject_recursive_types(I)]
#[verifier::reject_recursive_types(P)]
pub struct ExReceiver<I, P: Ord>(async_priority_channel::Receiver<I, P>);

/// What waits in a channel: pairs of a priority and a message.
pub uninterp spec fn waiting(r: async_priority_channel::Receiver<u64, u8>) -> Multiset<(u8, u64)>;

/// The two ends of a priority channel whose messages are tickets. Nothing else
/// holds an end of it, so what waits in it changes only through this value.
pub struct Channel {
    tx: async_priority_channel::Sender<u64, u8>,
    rx: async_priority_channel::Receiver<u64, u8>,
}

impl Channel {
    /// What waits in the channel.
    pub closed spec fn items(&self) -> Multiset<(u8, u64)> {
        waiting(self.rx)
    }
}

/// `async_priority_channel::unbounded`: an open channel in which nothing waits.
#[verifier::external_body]
fn open_channel() -> (r: Channel)
    ensures
        waiting(r.rx) == Multiset::<(u8, u64)>::empty(),
{
    let (tx, rx) = async_priority_channel::unbounded();
    Channel { tx, rx }
}

/// `async_priority_channel::Sender::try_send` on a channel both of whose ends are
/// held, and which is therefore open; an unbounded channel is never full. The
/// message waits afterwards. The channel counts its messages in less than 60 bits.
#[verifier::external_body]
fn send(c: &mut Channel, ticket: u64, priority: u8)
    requires
        waiting(old(c).rx).len() < 0x0fff_ffff_ffff_ffff,
    ensures
        waiting(final(c).rx) == waiting(old(c).rx).insert((priority, ticket)),
{
    let _ = c.tx.try_send(ticket, priority);
}

/// `async_priority_channel::Receiver::try_recv`: one of the waiting messages of
/// the highest priority, which waits no longer; nothing when none waits. Which of
/// several messages of that priority it is, is left open.
#[verifier::external_body]
fn receive(c: &mut Channel) -> (r: Option<(u64, u8)>)
    ensures
        match r {
            Some((ticket, priority)) => {
                &&& waiting(old(c).rx).contains((priority, ticket))
                &&& waiting(final(c).rx) == waiting(old(c).rx).remove((priority, ticket))
                &&& forall|p: u8, t: u64|
                    #[trigger] waiting(old(c).rx).contains((p, t)) ==> p <= priority
            },
            None => waiting(old(c).rx).len() == 0 && waiting(final(c).rx) == waiting(old(c).rx),
        },
{
    c.rx.try_recv().ok()
}

/// The ticket `t` of priority `p` was taken from `before`, in which nothing of a
/// higher priority waited.
pub open spec fn taken(
    before: Multiset<(u8, u64)>,
    after: Multiset<(u8, u64)>,
    p: u8,
    t: u64,
) -> bool {
    &&& before.contains((p, t))
    &&& after == before.remove((p, t))
    &&& forall|q: u8, u: u64| #[trigger] before.contains((q, u)) ==> q <= p
}

/// The ticket `t` waits.
pub open spec fn waits_in(m: Multiset<(u8, u64)>, t: u64) -> bool {
    exists|p: u8| m.contains((p, t))
}

/// The work of one direction that waits for a worker, highest priority first.
pub struct JobQueue {
    channel: Channel,
    pending: u64,
    issued: u64,
}

impl JobQueue {
    /// What waits: pairs of a priority and a ticket.
    pub closed spec fn waits(&self) -> Multiset<(u8, u64)> {
        self.channel.items()
    }

    /// How many tickets have been issued.
    pub closed spec fn tickets(&self) -> nat {
        self.issued as nat
    }

    /// The count is right, every waiting ticket has been issued, and it waits once.
    pub closed spec fn wf(&self) -> bool {
        &&& self.channel.items().len() == self.pending
        &&& self.pending < 0x0fff_ffff_ffff_ffff
        &&& forall|p: u8, t: u64| #[trigger]
            self.channel.items().contains((p, t)) ==> t < self.issued
        &&& forall|p: u8, t: u64| #[trigger] self.channel.items().count((p, t)) <= 1
        &&& forall|p: u8, q: u8, t: u64| #[trigger]
            self.channel.items().contains((p, t)) && #[trigger] self.channel.items().contains(
                (q, t),
            ) ==> p == q
    }


    /// A queue in which nothing waits.
    pub fn new() -> (r: Self)
        ensures
            r.wf(),
            r.waits() == Multiset::<(u8, u64)>::empty(),
            r.tickets() == 0,
    {
        let channel = open_channel();
        JobQueue { channel, pending: 0, issued: 0 }
    }

    /// Enqueue work under `class`; its ticket, or nothing when the queue can take
    /// no more.
    pub fn submit(&mut self, class: IoClass) -> (r: Option<u64>)
        requires
            old(self).wf(),
        ensures
            final(self).wf(),
            match r {
                Some(t) => {
                    &&& t == old(self).tickets()
                    &&& final(self).tickets() == old(self).tickets() + 1
                    &&& final(self).waits() == old(self).waits().insert((class.rank(), t))
                    &&& forall|p: u8| !#[trigger] old(self).waits().contains((p, t))
                },
                None => *final(self) == *old(self) && (old(self).waits().len()
                    >= 0x0fff_ffff_ffff_fffe || old(self).tickets() == u64::MAX),
            },
    {
        if self.pending >= 0x0fff_ffff_ffff_fffe || self.issued == u64::MAX {
            return None;
        }
        let ticket: u64 = self.issued;
        let priority: u8 = class.priority();
        let ghost had = self.channel.items();
        send(&mut self.channel, ticket, priority);
        self.issued = ticket + 1;
        self.pending = self.pending + 1;
        proof {
            let now = self.channel.items();
            assert forall|p: u8, t: u64| #[trigger] now.count((p, t)) == had.count((p, t)) + (if (
                p,
                t,
            ) == (priority, ticket) {
                1nat
            } else {
                0nat
            }) by {
                vstd::multiset::axiom_multiset_add(
                    had,
                    Multiset::singleton((priority, ticket)),
                    (p, t),
                );
            }
            assert forall|p: u8, t: u64| #[trigger] now.contains((p, t)) implies t < self.issued by {
                assert(now.count((p, t)) > 0);
                assert((p, t) != (priority, ticket) ==> had.contains((p, t)));
            }
            assert forall|p: u8, t: u64| #[trigger] now.count((p, t)) <= 1 by {
                assert(!had.contains((priority, ticket)));
            }
            assert forall|p: u8, q: u8, t: u64| #[trigger]
                now.contains((p, t)) && #[trigger] now.contains((q, t)) implies p == q by {
                assert(now.count((p, t)) > 0 && now.count((q, t)) > 0);
                assert(!had.contains((p, ticket)) && !had.contains((q, ticket)));
                assert((p, t) != (priority, ticket) ==> had.contains((p, t)));
                assert((q, t) != (priority, ticket) ==> had.contains((q, t)));
            }
        }
        Some(ticket)
    }

    /// The ticket and the priority of the work to run next: no work of a higher
    /// priority waits.
    pub fn take_next(&mut self) -> (r: Option<(u64, u8)>)
        requires
            old(self).wf(),
        ensures
            final(self).wf(),
            final(self).tickets() == old(self).tickets(),
            r is Some ==> taken(old(self).waits(), final(self).waits(), (r->0).1, (r->0).0),
            r is None ==> old(self).waits().len() == 0 && final(self).waits() == old(self).waits(),
    {
        let ghost had = self.channel.items();
        let got = receive(&mut self.channel);
        if let Some((ticket, priority)) = got {
            proof {
                assert(had.contains((priority, ticket)));
                assert(had.len() > 0);
                let now = self.channel.items();
                assert forall|p: u8, t: u64| #[trigger] now.count((p, t)) <= had.count((p, t)) by {}
                assert forall|p: u8, t: u64| #[trigger] now.contains((p, t)) implies had.contains(
                    (p, t),
                ) by {
                    assert(now.count((p, t)) <= had.count((p, t)));
                }
            }
            self.pending = self.pending - 1;
            return Some((ticket, priority));
        }
        None
    }
}

// ── Scheduling ──────────────────────────────────────────────────────────────

/// Where the bytes of a request go.
#[derive(Clone, Copy, Debug, PartialEq, Eq, Structural)]
pub enum Direction {
    Download,
    Upload,
}

/// A request: its direction, and its ticket in that direction's queue.
#[derive(Clone, Copy, Debug, PartialEq, Eq, Structural)]
pub struct Job {
    pub direction: Direction,
    pub ticket: u64,
}

/// How far a job has come.
pub enum Stage {
    /// It has not been submitted.
    Unknown,
    /// It waits for a worker of its direction.
    Queued,
    /// A worker holds it, and charges its bytes to the bandwidth.
    Held,
    /// It has been charged, and waits for a share of the budget.
    Ready,
    /// Its request is under way.
    Running,
    /// It has run.
    Done,
}

impl Stage {
    /// The stages in the order in which a job goes through them.
    pub open spec fn order(self) -> nat {
        match self {
            Stage::Unknown => 0,
            Stage::Queued => 1,
            Stage::Held => 2,
            Stage::Ready => 3,
            Stage::Running => 4,
            Stage::Done => 5,
        }
    }
}

/// How many of the jobs go in a direction.
pub open spec fn among(s: Seq<Job>, d: Direction) -> nat
    decreases s.len(),
{
    if s.len() == 0 {
        0
    } else {
        among(s.drop_last(), d) + (if s.last().direction == d {
            1nat
        } else {
            0nat
        })
    }
}

proof fn lemma_among_push(s: Seq<Job>, j: Job, d: Direction)
    ensures
        among(s.push(j), d) == among(s, d) + (if j.direction == d {
            1nat
        } else {
            0nat
        }),
{
    assert(s.push(j).drop_last() =~= s);
}

proof fn lemma_among_remove(s: Seq<Job>, i: int, d: Direction)
    requires
        0 <= i < s.len(),
    ensures
        among(s.remove(i), d) + (if s[i].direction == d {
            1nat
        } else {
            0nat
        }) == among(s, d),
    decreases s.len(),
{
    if i == s.len() - 1 {
        assert(s.remove(i) =~= s.drop_last());
    } else {
        lemma_among_remove(s.drop_last(), i, d);
        assert(s.remove(i).drop_last() =~= s.drop_last().remove(i));
        assert(s.remove(i).last() == s.last());
    }
}

proof fn lemma_among_bounded(s: Seq<Job>, d: Direction)
    ensures
        among(s, d) <= s.len(),
    decreases s.len(),
{
    if s.len() > 0 {
        lemma_among_bounded(s.drop_last(), d);
    }
}

/// The place of a job in a list.
fn position(v: &Vec<Job>, j: Job) -> (r: Option<usize>)
    ensures
        match r {
            Some(i) => i < v@.len() && v@[i as int] == j,
            None => !v@.contains(j),
        },
{
    let mut i: usize = 0;
    while i < v.len()
        invariant
            i <= v@.len(),
            forall|k: int| 0 <= k < i ==> #[trigger] v@[k] != j,
        decreases v@.len() - i,
    {
        if v[i] == j {
            return Some(i);
        }
        i = i + 1;
    }
    None
}

/// How many of the jobs go in a direction.
fn count(v: &Vec<Job>, d: Direction) -> (r: u64)
    ensures
        r == among(v@, d),
{
    let mut n: u64 = 0;
    let mut i: usize = 0;
    assert(v@.take(0) =~= Seq::<Job>::empty());
    while i < v.len()
        invariant
            i <= v@.len(),
            n == among(v@.take(i as int), d),
            n <= i,
        decreases v@.len() - i,
    {
        proof {
            assert(v@.take(i + 1) =~= v@.take(i as int).push(v@[i as int]));
            lemma_among_push(v@.take(i as int), v@[i as int], d);
        }
        if v[i].direction == d {
            n = n + 1;
        }
        i = i + 1;
    }
    assert(v@.take(v@.len() as int) =~= v@);
    n
}

/// Which request may go next. A job is submitted, taken up by a worker of its
/// direction, charged for its bytes, started within the budget that both
/// directions share, and finished; the caller queues, charges and performs the
/// requests.
pub struct AzureIoGateway {
    total: u64,
    download_workers: u64,
    upload_workers: u64,
    download: JobQueue,
    upload: JobQueue,
    held: Vec<Job>,
    ready: Vec<Job>,
    running: Vec<Job>,
}

impl AzureIoGateway {
    /// The budget that both directions share.
    pub closed spec fn budget(&self) -> nat {
        self.total as nat
    }

    /// The workers of a direction.
    pub closed spec fn workers(&self, d: Direction) -> nat {
        match d {
            Direction::Download => self.download_workers as nat,
            Direction::Upload => self.upload_workers as nat,
        }
    }

    /// The queue of a direction.
    closed spec fn queue(&self, d: Direction) -> JobQueue {
        match d {
            Direction::Download => self.download,
            Direction::Upload => self.upload,
        }
    }

    /// What waits for a worker of a direction: pairs of a priority and a ticket.
    pub closed spec fn queued(&self, d: Direction) -> Multiset<(u8, u64)> {
        self.queue(d).waits()
    }

    /// How many jobs of a direction have been submitted.
    pub closed spec fn submitted(&self, d: Direction) -> nat {
        self.queue(d).tickets()
    }

    /// The jobs that workers hold and charge.
    pub closed spec fn held(&self) -> Seq<Job> {
        self.held@
    }

    /// The jobs that wait for a share of the budget, in the order in which they
    /// asked for it.
    pub closed spec fn ready(&self) -> Seq<Job> {
        self.ready@
    }

    /// The jobs that are under way.
    pub closed spec fn running(&self) -> Seq<Job> {
        self.running@
    }

    /// The workers of a direction that have a job.
    pub open spec fn busy(&self, d: Direction) -> nat {
        among(self.held(), d) + among(self.ready(), d) + among(self.running(), d)
    }

    /// How far a job has come.
    pub open spec fn stage(&self, j: Job) -> Stage {
        if self.held().contains(j) {
            Stage::Held
        } else if self.ready().contains(j) {
            Stage::Ready
        } else if self.running().contains(j) {
            Stage::Running
        } else if waits_in(self.queued(j.direction), j.ticket) {
            Stage::Queued
        } else if j.ticket < self.submitted(j.direction) {
            Stage::Done
        } else {
            Stage::Unknown
        }
    }

    /// A worker has the job.
    closed spec fn in_hand(&self, j: Job) -> bool {
        self.held@.contains(j) || self.ready@.contains(j) || self.running@.contains(j)
    }

    /// A job is with one worker at most, and no longer in its queue.
    closed spec fn apart(&self) -> bool {
        &&& self.held@.no_duplicates()
        &&& self.ready@.no_duplicates()
        &&& self.running@.no_duplicates()
        &&& forall|j: Job| #[trigger]
            self.in_hand(j) ==> {
                &&& !(self.held@.contains(j) && self.ready@.contains(j))
                &&& !(self.held@.contains(j) && self.running@.contains(j))
                &&& !(self.ready@.contains(j) && self.running@.contains(j))
                &&& !waits_in(self.queued(j.direction), j.ticket)
                &&& j.ticket < self.submitted(j.direction)
            }
    }

    /// Neither the workers of a direction nor the budget are exceeded.
    closed spec fn within(&self) -> bool {
        &&& self.running@.len() <= self.total
        &&& forall|d: Direction| #[trigger] self.busy(d) <= self.workers(d)
        &&& forall|d: Direction| 1 <= #[trigger] self.workers(d) <= self.total
    }

    /// What holds between calls.
    pub closed spec fn wf(&self) -> bool {
        &&& self.download.wf()
        &&& self.upload.wf()
        &&& self.apart()
        &&& self.within()
    }

    /// The limits are those of `o`.
    pub open spec fn same_limits(&self, o: Self) -> bool {
        &&& self.budget() == o.budget()
        &&& forall|d: Direction| #[trigger] self.workers(d) == o.workers(d)
    }

    /// One job, `j`, has come from one stage to the next since `before`, and
    /// nothing else has changed.
    pub open spec fn moved(&self, before: Self, j: Job, from: Stage, to: Stage) -> bool {
        &&& before.stage(j) == from
        &&& self.stage(j) == to
        &&& forall|k: Job| k != j ==> #[trigger] self.stage(k) == before.stage(k)
    }

    /// A gateway without work.
    pub fn new(cfg: &IoGatewayConfig) -> (r: Self)
        ensures
            r.wf(),
            r.budget() == (if cfg.concurrency > 0 {
                cfg.concurrency
            } else {
                1
            }),
            r.workers(Direction::Download) == clamped(
                cfg.download_concurrency,
                r.budget() as u64,
            ),
            r.workers(Direction::Upload) == clamped(cfg.upload_concurrency, r.budget() as u64),
            forall|j: Job| #[trigger] r.stage(j) == Stage::Unknown,
    {
        let (total, downloads, uploads) = cfg.workers();
        let r = AzureIoGateway {
            total,
            download_workers: downloads,
            upload_workers: uploads,
            download: JobQueue::new(),
            upload: JobQueue::new(),
            held: Vec::new(),
            ready: Vec::new(),
            running: Vec::new(),
        };
        proof {
            assert forall|d: Direction| #[trigger] r.busy(d) <= r.workers(d) by {}
            assert forall|j: Job| #[trigger] r.stage(j) == Stage::Unknown by {
                assert(!waits_in(r.queued(j.direction), j.ticket));
            }
        }
        r
    }

    /// Submit a download under `class`; nothing when the queue can take no more.
    pub fn download(&mut self, class: IoClass) -> (r: Option<Job>)
        requires
            old(self).wf(),
        ensures
            final(self).wf(),
            final(self).same_limits(*old(self)),
            final(self).accepted(*old(self), Direction::Download, class, r),
    {
        self.submit(Direction::Download, class)
    }

    /// Submit an upload under `class`; nothing when the queue can take no more.
    pub fn upload(&mut self, class: IoClass) -> (r: Option<Job>)
        requires
            old(self).wf(),
        ensures
            final(self).wf(),
            final(self).same_limits(*old(self)),
            final(self).accepted(*old(self), Direction::Upload, class, r),
    {
        self.submit(Direction::Upload, class)
    }

    /// The outcome of a submission: the job waits under the priority of its class;
    /// or nothing has changed, because the queue is full.
    pub open spec fn accepted(
        &self,
        before: Self,
        d: Direction,
        class: IoClass,
        r: Option<Job>,
    ) -> bool {
        match r {
            Some(j) => {
                &&& j.direction == d
                &&& j.ticket == before.submitted(d)
                &&& self.queued(d) == before.queued(d).insert((class.rank(), j.ticket))
                &&& self.moved(before, j, Stage::Unknown, Stage::Queued)
            },
            None => {
                &&& *self == before
                &&& before.queued(d).len() >= 0x0fff_ffff_ffff_fffe || before.submitted(d)
                    == u64::MAX
            },
        }
    }

    fn submit(&mut self, d: Direction, class: IoClass) -> (r: Option<Job>)
        requires
            old(self).wf(),
        ensures
            final(self).wf(),
            final(self).same_limits(*old(self)),
            final(self).accepted(*old(self), d, class, r),
    {
        let ghost before = *self;
        let got: Option<u64> = match d {
            Direction::Download => self.download.submit(class),
            Direction::Upload => self.upload.submit(class),
        };
        let ticket: u64 = match got {
            Some(t) => t,
            None => {
                return None;
            },
        };
        let j = Job { direction: d, ticket };
        proof {
            let had = before.queued(d);
            let now = self.queued(d);
            assert(now == had.insert((class.rank(), ticket)));
            assert forall|p: u8, t: u64| #[trigger] now.contains((p, t)) == (had.contains((p, t))
                || (p, t) == (class.rank(), ticket)) by {
                vstd::multiset::axiom_multiset_add(
                    had,
                    Multiset::singleton((class.rank(), ticket)),
                    (p, t),
                );
            }
            assert(now.contains((class.rank(), ticket)));
            assert forall|k: Job| #[trigger] self.in_hand(k) implies before.in_hand(k) && k != j
                && !waits_in(self.queued(k.direction), k.ticket) && k.ticket < self.submitted(
                k.direction,
            ) by {
                assert(before.in_hand(k));
                if waits_in(self.queued(k.direction), k.ticket) {
                    let p = choose|p: u8| self.queued(k.direction).contains((p, k.ticket));
                    assert(before.queued(k.direction).contains((p, k.ticket)));
                }
            }
            if waits_in(had, ticket) {
                let p = choose|p: u8| had.contains((p, ticket));
                assert(had.contains((p, ticket)));
            }
            assert(!self.in_hand(j) && !before.in_hand(j));
            assert forall|k: Job| k != j implies #[trigger] self.stage(k) == before.stage(k) by {
                if k.direction != d {
                    assert(self.queue(k.direction) == before.queue(k.direction));
                } else {
                    assert(k.ticket != ticket);
                    if waits_in(now, k.ticket) {
                        let p = choose|p: u8| now.contains((p, k.ticket));
                        assert(had.contains((p, k.ticket)));
                    }
                    if waits_in(had, k.ticket) {
                        let p = choose|p: u8| had.contains((p, k.ticket));
                        assert(now.contains((p, k.ticket)));
                    }
                }
            }
            assert forall|d: Direction| #[trigger] self.busy(d) <= self.workers(d) by {
                assert(self.busy(d) == before.busy(d));
                assert(self.workers(d) == before.workers(d));
            }
            assert forall|d: Direction| 1 <= #[trigger] self.workers(d) <= self.total by {
                assert(self.workers(d) == before.workers(d));
            }
        }
        Some(j)
    }

    /// Nothing but the clock has moved since `before`.
    pub open spec fn unchanged(&self, before: Self) -> bool {
        &&& forall|d: Direction| #[trigger] self.queued(d) == before.queued(d)
        &&& forall|d: Direction| #[trigger] self.submitted(d) == before.submitted(d)
        &&& self.held() == before.held()
        &&& self.ready() == before.ready()
        &&& self.running() == before.running()
    }

    /// A free worker of a direction takes up the job to run next, and holds it
    /// while its bytes are charged. Nothing when no worker is free or no job waits.
    pub fn take(&mut self, d: Direction) -> (r: Option<Job>)
        requires
            old(self).wf(),
        ensures
            final(self).wf(),
            final(self).same_limits(*old(self)),
            match r {
                Some(j) => {
                    &&& j.direction == d
                    &&& old(self).busy(d) < old(self).workers(d)
                    &&& exists|p: u8| #[trigger]
                        taken(old(self).queued(d), final(self).queued(d), p, j.ticket)
                    &&& final(self).moved(*old(self), j, Stage::Queued, Stage::Held)
                },
                None => final(self).unchanged(*old(self)) && (old(self).busy(d) == old(self).workers(d) || old(self).queued(d).len() == 0),
            },
    {
        let ghost before = *self;
        let limit: u64 = match d {
            Direction::Download => self.download_workers,
            Direction::Upload => self.upload_workers,
        };
        proof {
            assert(self.busy(d) <= self.workers(d));
        }
        let busy: u64 = count(&self.held, d) + count(&self.ready, d) + count(&self.running, d);
        if busy >= limit {
            return None;
        }
        let got: Option<(u64, u8)> = match d {
            Direction::Download => self.download.take_next(),
            Direction::Upload => self.upload.take_next(),
        };
        proof {
            assert forall|e: Direction| e != d implies #[trigger] self.queue(e) == before.queue(
                e,
            ) by {}
            assert forall|e: Direction| #[trigger] self.busy(e) == before.busy(e) by {}
            assert forall|e: Direction| #[trigger] self.workers(e) == before.workers(e) by {}
        }
        let (ticket, priority): (u64, u8) = match got {
            Some(x) => x,
            None => {
                proof {
                    assert(self.unchanged(before));
                    assert forall|k: Job| #[trigger] self.in_hand(k) implies before.in_hand(k) by {}
                }
                return None;
            },
        };
        let j = Job { direction: d, ticket };
        self.held.push(j);
        proof {
            let had = before.queued(d);
            let now = self.queued(d);
            assert(taken(had, now, priority, ticket));
            assert(had.contains((priority, ticket)));
            assert(waits_in(had, ticket));
            assert(!before.in_hand(j));
            assert(!waits_in(now, ticket)) by {
                if waits_in(now, ticket) {
                    let p = choose|p: u8| now.contains((p, ticket));
                    assert(now.count((p, ticket)) <= had.count((p, ticket)));
                    assert(had.contains((p, ticket)));
                    assert(p == priority);
                    assert(had.count((priority, ticket)) == 1);
                }
            }
            assert forall|t: u64| t != ticket implies #[trigger] waits_in(now, t) == waits_in(
                had,
                t,
            ) by {
                assert forall|p: u8| #[trigger] now.contains((p, t)) == had.contains((p, t)) by {
                    assert(now.count((p, t)) == had.count((p, t)));
                }
                if waits_in(had, t) {
                    let p = choose|p: u8| had.contains((p, t));
                    assert(now.contains((p, t)));
                }
            }
            lemma_push_contains(before.held@, j);
            assert forall|k: Job| #[trigger] self.in_hand(k) implies k == j || before.in_hand(k) by {}
            assert(ticket < self.submitted(d));
            assert forall|e: Direction| #[trigger] self.workers(e) == before.workers(e) by {}
            assert forall|e: Direction| #[trigger] self.busy(e) <= self.workers(e) by {
                lemma_among_push(before.held@, j, e);
                assert(before.busy(e) <= before.workers(e));
            }
            assert forall|k: Job| k != j implies #[trigger] self.stage(k) == before.stage(k) by {
                if k.direction == d {
                    assert(k.ticket != ticket);
                    assert(waits_in(now, k.ticket) == waits_in(had, k.ticket));
                }
            }
            assert(before.stage(j) == Stage::Queued);
            assert(self.stage(j) == Stage::Held);
        }
        Some(j)
    }

    /// A held job has been charged for its bytes, and waits for a share of the
    /// budget. Returns whether the job was held.
    pub fn paced(&mut self, j: Job) -> (r: bool)
        requires
            old(self).wf(),
        ensures
            final(self).wf(),
            final(self).same_limits(*old(self)),
            r == (old(self).stage(j) == Stage::Held),
            r ==> final(self).moved(*old(self), j, Stage::Held, Stage::Ready) && final(self).ready() == old(self).ready().push(j),
            !r ==> final(self).unchanged(*old(self)),
    {
        let ghost before = *self;
        let i: usize = match position(&self.held, j) {
            Some(i) => i,
            None => {
                return false;
            },
        };
        self.held.remove(i);
        self.ready.push(j);
        proof {
            assert(before.in_hand(j));
            lemma_remove_contains(before.held@, i as int);
            lemma_push_contains(before.ready@, j);
            self.lemma_moved_on(before);
            assert forall|k: Job| #[trigger] self.in_hand(k) implies before.in_hand(k) by {}
            assert forall|e: Direction| #[trigger] self.busy(e) <= self.workers(e) by {
                lemma_among_remove(before.held@, i as int, e);
                lemma_among_push(before.ready@, j, e);
                assert(before.busy(e) <= before.workers(e));
                assert(before.workers(e) == self.workers(e));
            }
        }
        true
    }

    /// The job that has waited longest for a share of the budget gets one, if one
    /// is left, and its request may be made.
    pub fn start(&mut self) -> (r: Option<Job>)
        requires
            old(self).wf(),
        ensures
            final(self).wf(),
            final(self).same_limits(*old(self)),
            match r {
                Some(j) => {
                    &&& old(self).running().len() < old(self).budget()
                    &&& old(self).ready().len() > 0
                    &&& j == old(self).ready()[0]
                    &&& final(self).ready() == old(self).ready().remove(0)
                    &&& final(self).moved(*old(self), j, Stage::Ready, Stage::Running)
                },
                None => final(self).unchanged(*old(self)) && (old(self).running().len() == old(self).budget() || old(self).ready().len() == 0),
            },
    {
        let ghost before = *self;
        if self.running.len() as u64 >= self.total || self.ready.len() == 0 {
            return None;
        }
        let j: Job = self.ready[0];
        self.ready.remove(0);
        self.running.push(j);
        proof {
            assert(before.ready@.contains(j));
            assert(before.in_hand(j));
            lemma_remove_contains(before.ready@, 0);
            lemma_push_contains(before.running@, j);
            self.lemma_moved_on(before);
            assert forall|k: Job| #[trigger] self.in_hand(k) implies before.in_hand(k) by {}
            assert forall|e: Direction| #[trigger] self.busy(e) <= self.workers(e) by {
                lemma_among_remove(before.ready@, 0, e);
                lemma_among_push(before.running@, j, e);
                assert(before.busy(e) <= before.workers(e));
                assert(before.workers(e) == self.workers(e));
            }
        }
        Some(j)
    }

    /// A running job has ended: its worker and its share of the budget are free.
    /// Returns whether the job was running.
    pub fn finish(&mut self, j: Job) -> (r: bool)
        requires
            old(self).wf(),
        ensures
            final(self).wf(),
            final(self).same_limits(*old(self)),
            r == (old(self).stage(j) == Stage::Running),
            r ==> final(self).moved(*old(self), j, Stage::Running, Stage::Done),
            !r ==> final(self).unchanged(*old(self)),
    {
        let ghost before = *self;
        let i: usize = match position(&self.running, j) {
            Some(i) => i,
            None => {
                return false;
            },
        };
        self.running.remove(i);
        proof {
            assert(before.in_hand(j));
            lemma_remove_contains(before.running@, i as int);
            self.lemma_moved_on(before);
            assert forall|k: Job| #[trigger] self.in_hand(k) implies before.in_hand(k) by {}
            assert forall|e: Direction| #[trigger] self.busy(e) <= self.workers(e) by {
                lemma_among_remove(before.running@, i as int, e);
                assert(before.busy(e) <= before.workers(e));
                assert(before.workers(e) == self.workers(e));
            }
        }
        true
    }

    /// What a call that leaves the queues alone keeps.
    proof fn lemma_moved_on(&self, before: Self)
        requires
            self.download == before.download,
            self.upload == before.upload,
            self.total == before.total,
            self.download_workers == before.download_workers,
            self.upload_workers == before.upload_workers,
        ensures
            forall|e: Direction| #[trigger] self.queued(e) == before.queued(e),
            forall|e: Direction| #[trigger] self.submitted(e) == before.submitted(e),
            forall|e: Direction| #[trigger] self.workers(e) == before.workers(e),
    {
    }
}

proof fn lemma_push_contains(s: Seq<Job>, j: Job)
    ensures
        forall|k: Job| #[trigger] s.push(j).contains(k) <==> s.contains(k) || k == j,
        s.no_duplicates() && !s.contains(j) ==> s.push(j).no_duplicates(),
{
    assert forall|k: Job| #[trigger] s.push(j).contains(k) <==> s.contains(k) || k == j by {
        if s.contains(k) {
            let i = choose|i: int| 0 <= i < s.len() && s[i] == k;
            assert(s.push(j)[i] == k);
        }
        assert(s.push(j)[s.len() as int] == j);
        if s.push(j).contains(k) {
            let i = choose|i: int| 0 <= i < s.push(j).len() && s.push(j)[i] == k;
            if i < s.len() {
                assert(s[i] == k);
            }
        }
    }
}

proof fn lemma_remove_contains(s: Seq<Job>, i: int)
    requires
        0 <= i < s.len(),
        s.no_duplicates(),
    ensures
        forall|k: Job| #[trigger] s.remove(i).contains(k) <==> s.contains(k) && k != s[i],
        s.remove(i).no_duplicates(),
{
    let r = s.remove(i);
    assert forall|k: Job| #[trigger] r.contains(k) <==> s.contains(k) && k != s[i] by {
        if s.contains(k) && k != s[i] {
            let a = choose|a: int| 0 <= a < s.len() && s[a] == k;
            if a < i {
                assert(r[a] == k);
            } else {
                assert(r[a - 1] == k);
            }
        }
        if r.contains(k) {
            let a = choose|a: int| 0 <= a < r.len() && r[a] == k;
            if a < i {
                assert(s[a] == k);
            } else {
                assert(s[a + 1] == k);
            }
        }
    }
}

/// At every moment the requests under way stay within the shared budget, and those
/// of a direction within its ceiling.
pub proof fn the_budget_is_kept(g: AzureIoGateway, d: Direction)
    requires
        g.wf(),
    ensures
        g.running().len() <= g.budget(),
        among(g.running(), d) <= g.workers(d) <= g.budget(),
{
    assert(g.busy(d) <= g.workers(d));
}

/// A call has moved one job on by one stage, or nothing.
pub open spec fn one_step(before: AzureIoGateway, after: AzureIoGateway) -> bool {
    ||| exists|j: Job, from: Stage, to: Stage| #[trigger]
        after.moved(before, j, from, to) && to.order() == from.order() + 1
    ||| after.unchanged(before)
}

/// A job goes through its stages in order, one call at a time, and never back: it is
/// queued, taken up, started and finished at most once, whatever the gateway is
/// asked meanwhile.
pub proof fn a_job_runs_once(run: Seq<AzureIoGateway>, j: Job, i: int, k: int)
    requires
        forall|n: int| 0 <= n < run.len() - 1 ==> one_step(#[trigger] run[n], run[n + 1]),
        0 <= i <= k < run.len(),
    ensures
        run[i].stage(j).order() <= run[k].stage(j).order() <= run[i].stage(j).order() + (k - i),
        run[i].stage(j) == Stage::Done ==> run[k].stage(j) == Stage::Done,
    decreases k - i,
{
    if i < k {
        a_job_runs_once(run, j, i, k - 1);
        let a = run[k - 1];
        let b = run[k];
        assert(one_step(run[k - 1], run[k - 1 + 1]));
        if b.unchanged(a) {
            assert(b.queued(j.direction) == a.queued(j.direction));
            assert(b.submitted(j.direction) == a.submitted(j.direction));
            assert(b.stage(j) == a.stage(j));
        } else {
            let (m, from, to) = choose|m: Job, from: Stage, to: Stage| #[trigger]
                b.moved(a, m, from, to) && to.order() == from.order() + 1;
            if m != j {
                assert(b.stage(j) == a.stage(j));
            }
        }
    }
}

// ── What the rules come to ──────────────────────────────────────────────────

/// A number of the environment is read as it is written; zero, and what is no
/// number, leave the default.
pub proof fn a_setting_is_read_as_it_is_written(
    env: Map<Seq<char>, Seq<char>>,
    name: Seq<char>,
    default: nat,
    n: u64,
)
    ensures
        table::value(env, name) == Some(text::decimal(n as nat)) ==> env_number(env, name) == Some(
            n as nat,
        ),
        table::value(env, name) == Some(text::decimal(n as nat)) && n > 0 ==> env_positive(
            env,
            name,
            default,
        ) == n,
        table::value(env, name) == Some(text::decimal(0)) ==> env_positive(env, name, default)
            == default,
        table::value(env, name) is None ==> env_number(env, name) is None && env_positive(
            env,
            name,
            default,
        ) == default,
{
    text::number_reads_decimal(n as nat, u64::MAX as nat);
    text::number_reads_decimal(0, u64::MAX as nat);
}

/// A direction has at least one worker and no more than the budget; a number in
/// between is used as it is.
pub proof fn a_direction_keeps_to_the_budget(n: u64, total: u64)
    requires
        total >= 1,
    ensures
        1 <= clamped(n, total) <= total,
        1 <= n <= total ==> clamped(n, total) == n,
        n == 0 ==> clamped(n, total) == 1,
        n > total ==> clamped(n, total) == total,
{
}

/// A bucket gains a tenth of its bandwidth every tenth of a second, at least one
/// byte, and holds a second's worth, at least the largest page request.
pub proof fn a_bucket_is_sized_by_its_bandwidth(bps: u64)
    ensures
        bps >= 10 ==> 10 * refill_for(bps) <= bps < 10 * refill_for(bps) + 10,
        bps < 10 ==> refill_for(bps) == 1,
        bps >= 4194304 ==> capacity_for(bps) == bps,
        bps < 4194304 ==> capacity_for(bps) == 4194304,
        bps <= isize::MAX ==> balance(bps as nat) == bps,
{
}

/// What is charged for a request adds up round by round.
pub proof fn charges_add_up(s: Seq<usize>, n: usize)
    ensures
        charged(Seq::empty()) == 0,
        charged(s.push(n)) == charged(s) + n,
{
    assert(s.push(n).drop_last() =~= s);
}

/// The jobs of a direction are counted one by one.
pub proof fn jobs_are_counted_by_direction(s: Seq<Job>, j: Job, d: Direction)
    ensures
        among(Seq::empty(), d) == 0,
        j.direction == d ==> among(s.push(j), d) == among(s, d) + 1,
        j.direction != d ==> among(s.push(j), d) == among(s, d),
        among(s, Direction::Download) + among(s, Direction::Upload) == s.len(),
    decreases s.len(),
{
    lemma_among_push(s, j, d);
    if s.len() > 0 {
        jobs_are_counted_by_direction(s.drop_last(), s.last(), d);
    }
}

/// The job that is taken next is one of those that wait, and none of a higher class
/// waits: a foreground read is never passed over for anything else.
pub proof fn a_foreground_read_is_never_passed_over(
    before: Multiset<(u8, u64)>,
    after: Multiset<(u8, u64)>,
    p: u8,
    t: u64,
    other: u64,
)
    requires
        taken(before, after, p, t),
    ensures
        before.contains((p, t)),
        before.contains((IoClass::ForegroundRead.rank(), other)) ==> p
            >= IoClass::ForegroundRead.rank(),
        before.contains((IoClass::Flush.rank(), other)) ==> p >= IoClass::Flush.rank(),
        p == IoClass::Warmup.rank() ==> !before.contains((IoClass::Copy.rank(), other)),
        after.len() == before.len() - 1,
{
}

/// A job goes from unknown to queued, to held, to ready, to running, to done.
pub proof fn the_stages_of_a_job_are_in_order()
    ensures
        Stage::Unknown.order() < Stage::Queued.order(),
        Stage::Queued.order() < Stage::Held.order(),
        Stage::Held.order() < Stage::Ready.order(),
        Stage::Ready.order() < Stage::Running.order(),
        Stage::Running.order() < Stage::Done.order(),
{
}

} // verus!

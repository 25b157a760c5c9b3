//! Cluster coordination: an **Azure blob lease** ("blob lock") combined with an
//! optional **Kubernetes `coordination.k8s.io` Lease** ("cluster lease"), so that
//! at most one node mounts a given page blob at a time.
//!
//! * **Single-process mode** (no cluster lease): only the blob lease is acquired
//!   and renewed. If another process already holds it, mounting is refused; there
//!   is no liveness arbiter, so a held lease is never broken.
//! * **Cluster mode** (with a cluster lease): the cluster lease is a *liveness*
//!   signal. A node that wins it has established that the previous holder is past
//!   the recovery timeout, and may break the blob lease that a dead holder left.
//!
//! The two locks are abstracted behind [`BlobLock`] and [`ClusterLease`]; the
//! contracts of the traits record every request and its reply, and the contract
//! of [`Coordinator::acquire`] says which requests are made and what comes of
//! the replies.

pub mod k8s;

use vstd::prelude::*;

use crate::text;

verus! {

/// Nanoseconds in a second.
pub const NANOS_PER_SEC: u128 = 1_000_000_000;

/// Default Azure blob lease duration, in nanoseconds. Azure caps a *finite* lease
/// at 60 s; the renewal loop refreshes it well before it expires.
pub const DEFAULT_LEASE_DURATION: u128 = 60_000_000_000;

/// Default recovery timeout, in nanoseconds: how long a holder's cluster lease
/// may go un-renewed before another node is allowed to take the volume over.
pub const DEFAULT_RECOVERY_TIMEOUT: u128 = 120_000_000_000;

/// Configuration of a [`Coordinator`]. Durations are in nanoseconds.
#[derive(Debug)]
pub struct CoordinationConfig {
    /// Identity recorded as the holder of the cluster lease (typically the node
    /// name / hostname).
    pub holder_identity: String,
    /// Finite Azure blob lease duration (clamped to Azure's 15..=60 s window).
    pub lease_duration: u128,
    /// How long a holder's cluster lease may be stale before take-over.
    pub recovery_timeout: u128,
    /// How often the renewal loop refreshes both leases.
    pub renew_interval: u128,
}

/// The whole seconds of `nanos`, clamped to Azure's lease window.
pub open spec fn clamped_secs(nanos: u128) -> u128 {
    let secs = nanos / NANOS_PER_SEC;
    if secs < 15 {
        15
    } else if secs > 60 {
        60
    } else {
        secs
    }
}

impl CoordinationConfig {
    /// Build a config, deriving a sensible renewal interval from the lease
    /// duration (a third of it, with a 5 s floor) and clamping the blob lease
    /// duration to whole seconds in Azure's accepted 15..=60 s range.
    pub fn new(holder_identity: &str, lease_duration: u128, recovery_timeout: u128) -> (r: Self)
        ensures
            r.holder_identity@ == holder_identity@,
            r.lease_duration == clamped_secs(lease_duration) * NANOS_PER_SEC,
            r.recovery_timeout == recovery_timeout,
            r.renew_interval == (if r.lease_duration / 3 < 5 * NANOS_PER_SEC {
                5 * NANOS_PER_SEC
            } else {
                (r.lease_duration / 3) as int
            }),
            3 * r.renew_interval <= r.lease_duration < 3 * r.renew_interval + 3,
            r.renew_interval >= 5_000_000_000,
            15_000_000_000 <= r.lease_duration <= 60_000_000_000,
    {
        let mut secs: u128 = lease_duration / NANOS_PER_SEC;
        if secs < 15 {
            secs = 15;
        }
        if secs > 60 {
            secs = 60;
        }
        let lease: u128 = secs * NANOS_PER_SEC;
        let third: u128 = lease / 3;
        let floor: u128 = 5 * NANOS_PER_SEC;
        CoordinationConfig {
            holder_identity: holder_identity.to_owned(),
            lease_duration: lease,
            recovery_timeout,
            renew_interval: if third < floor {
                floor
            } else {
                third
            },
        }
    }

    /// The lease duration is whole seconds in Azure's window.
    pub open spec fn valid(&self) -> bool {
        &&& self.lease_duration % NANOS_PER_SEC == 0
        &&& 15 * NANOS_PER_SEC <= self.lease_duration <= 60 * NANOS_PER_SEC
    }

    /// The blob lease duration in seconds, as the `i32` the Azure SDK expects.
    pub fn lease_duration_secs(&self) -> (r: i32)
        requires
            self.valid(),
        ensures
            r * NANOS_PER_SEC == self.lease_duration,
            r == (self.lease_duration / NANOS_PER_SEC) as i32,
    {
        (self.lease_duration / NANOS_PER_SEC) as i32
    }
}

/// A new config is valid.
pub proof fn new_config_is_valid(c: CoordinationConfig, lease_duration: u128)
    requires
        c.lease_duration == clamped_secs(lease_duration) * NANOS_PER_SEC,
    ensures
        c.valid(),
{
}

// ── Blob lock ───────────────────────────────────────────────────────────────

/// Why a blob lease was not granted.
#[derive(Debug)]
pub enum LockError {
    /// The lease is currently held by someone else (HTTP 409/412).
    Held,
    /// Any other failure.
    Other(String),
}

impl LockError {
    /// What the failure is, in words.
    pub fn message(&self) -> (r: String)
        ensures
            r@ == (match self {
                LockError::Held => "blob lease is already held"@,
                LockError::Other(e) => e@,
            }),
    {
        match self {
            LockError::Held => "blob lease is already held".to_owned(),
            LockError::Other(e) => e.clone(),
        }
    }
}

/// A request to a blob lock, and its reply.
pub enum LockCall {
    Acquire { secs: i32, reply: Result<String, LockError> },
    Renew { id: Seq<char>, reply: Result<(), String> },
    Release { id: Seq<char>, reply: Result<(), String> },
    Break { reply: Result<(), String> },
}

/// A storage-level exclusive lock on the backing blob (an Azure blob lease).
///
/// A lock keeps no promise about its replies; `calls` is the history of requests
/// and replies, which every request extends. Its default body is one unknown constant,
/// so that a lock written in ordinary Rust, whose contracts nobody checks, need not
/// give it; a lock that is verified keeps the calls itself, because with a constant it
/// could not meet the contracts.
pub trait BlobLock: Sized {
    /// The requests made so far, with their replies.
    closed spec fn calls(&self) -> Seq<LockCall> {
        arbitrary()
    }

    /// Acquire a finite lease of `duration_secs` seconds, returning the lease id
    /// assigned by the server, or [`LockError::Held`] if another client already
    /// holds the lease.
    fn acquire(&mut self, duration_secs: i32) -> (r: Result<String, LockError>)
        ensures
            final(self).calls() == old(self).calls().push(
                (LockCall::Acquire { secs: duration_secs, reply: r }),
            ),
    ;

    /// Renew the lease identified by `lease_id`.
    fn renew(&mut self, lease_id: &str) -> (r: Result<(), String>)
        ensures
            final(self).calls() == old(self).calls().push(
                (LockCall::Renew { id: lease_id@, reply: r }),
            ),
    ;

    /// Release the lease identified by `lease_id`.
    fn release(&mut self, lease_id: &str) -> (r: Result<(), String>)
        ensures
            final(self).calls() == old(self).calls().push(
                (LockCall::Release { id: lease_id@, reply: r }),
            ),
    ;

    /// Break the current lease immediately, regardless of who holds it, so it can
    /// be re-acquired. Used to take a volume over from a dead holder.
    fn break_lock(&mut self) -> (r: Result<(), String>)
        ensures
            final(self).calls() == old(self).calls().push((LockCall::Break { reply: r })),
    ;
}

// ── Cluster lease ───────────────────────────────────────────────────────────

/// Outcome of attempting to acquire the cluster lease.
#[derive(Debug)]
pub enum ClusterAcquire {
    /// We now hold the cluster lease.
    Acquired,
    /// Another holder is still alive (renewed within the recovery timeout).
    HeldByLiveHolder {
        /// The current holder identity.
        holder: String,
        /// How long ago the holder last renewed the lease, in nanoseconds.
        since_renew: u128,
    },
}

/// A request to a cluster lease, and its reply.
pub enum LeaseCall {
    Acquire { reply: Result<ClusterAcquire, String> },
    Renew { reply: Result<(), String> },
    Release { reply: Result<(), String> },
}

/// A cluster-wide liveness lease (a Kubernetes `coordination.k8s.io` Lease).
///
/// The default body of `calls` is one unknown constant, so that a lease written in
/// ordinary Rust, whose contracts nobody checks, need not give it; a lease that is
/// verified keeps the calls itself, because with a constant it could not meet the
/// contracts.
pub trait ClusterLease: Sized {
    /// The requests made so far, with their replies.
    closed spec fn calls(&self) -> Seq<LeaseCall> {
        arbitrary()
    }

    /// Attempt to acquire, or take over from a stale holder, the cluster lease
    /// for our holder identity.
    fn try_acquire(&mut self) -> (r: Result<ClusterAcquire, String>)
        ensures
            final(self).calls() == old(self).calls().push((LeaseCall::Acquire { reply: r })),
    ;

    /// Refresh our hold on the cluster lease (`renewTime = now`).
    fn renew(&mut self) -> (r: Result<(), String>)
        ensures
            final(self).calls() == old(self).calls().push((LeaseCall::Renew { reply: r })),
    ;

    /// Release the cluster lease so another node can take the volume immediately,
    /// without waiting for the recovery timeout.
    fn release(&mut self) -> (r: Result<(), String>)
        ensures
            final(self).calls() == old(self).calls().push((LeaseCall::Release { reply: r })),
    ;
}

// ── Coordinator ─────────────────────────────────────────────────────────────

/// Why a volume may not be mounted.
#[derive(Debug)]
pub enum AcquireError {
    /// The cluster lease could not be asked for.
    Cluster(String),
    /// A live node holds the cluster lease.
    LiveHolder { holder: String, since_renew: u128, recovery_timeout: u128 },
    /// The blob lease is held, and nothing arbitrates its holder's liveness.
    Held,
    /// The blob lease could not be acquired.
    Blob(String),
    /// The stale blob lease could not be broken.
    Break(String),
    /// The blob lease was taken by another node after it was broken.
    Raced,
    /// The blob lease could not be acquired after it was broken.
    Reacquire(String),
}

/// The refusal to mount beside a live holder, in words.
pub open spec fn live_words(holder: Seq<char>, since_renew: u128, recovery_timeout: u128) -> Seq<
    char,
> {
    "cluster lease is held by a live holder '"@ + holder + "' (renewed "@ + text::duration(
        since_renew as nat,
    ) + " ago, within the "@ + text::duration(recovery_timeout as nat)
        + " recovery timeout); another node is still using this volume — refusing to mount"@
}

impl AcquireError {
    /// The refusal, in words.
    pub open spec fn words(self) -> Seq<char> {
        match self {
            AcquireError::Cluster(e) => "acquire cluster lease"@ + ": "@ + e@,
            AcquireError::LiveHolder { holder, since_renew, recovery_timeout } => live_words(
                holder@,
                since_renew,
                recovery_timeout,
            ),
            AcquireError::Held => "blob lease is already held by another process — refusing to mount; if you are certain no other process is using this blob, pass --disable-blob-lock"@,
            AcquireError::Blob(e) => "acquire blob lease"@ + ": "@ + e@,
            AcquireError::Break(e) => "break stale blob lease for take-over"@ + ": "@ + e@,
            AcquireError::Raced => "blob lease is still held after breaking it — another node raced us for the take-over"@,
            AcquireError::Reacquire(e) => "re-acquire blob lease after break"@ + ": "@ + e@,
        }
    }

    /// The refusal, in words.
    pub fn message(&self) -> (r: String)
        ensures
            r@ == self.words(),
    {
        match self {
            AcquireError::Cluster(e) => text::concat3("acquire cluster lease", ": ", e.as_str()),
            AcquireError::LiveHolder { holder, since_renew, recovery_timeout } => {
                let mut r = text::concat3(
                    "cluster lease is held by a live holder '",
                    holder.as_str(),
                    "' (renewed ",
                );
                r.append(text::duration_of(*since_renew).as_str());
                r.append(" ago, within the ");
                r.append(text::duration_of(*recovery_timeout).as_str());
                r.append(
                    " recovery timeout); another node is still using this volume — refusing to mount",
                );
                r
            },
            AcquireError::Held => {
                "blob lease is already held by another process — refusing to mount; if you are certain no other process is using this blob, pass --disable-blob-lock".to_owned()
            },
            AcquireError::Blob(e) => text::concat3("acquire blob lease", ": ", e.as_str()),
            AcquireError::Break(e) => text::concat3(
                "break stale blob lease for take-over",
                ": ",
                e.as_str(),
            ),
            AcquireError::Raced => {
                "blob lease is still held after breaking it — another node raced us for the take-over".to_owned()
            },
            AcquireError::Reacquire(e) => text::concat3(
                "re-acquire blob lease after break",
                ": ",
                e.as_str(),
            ),
        }
    }
}

/// What acquisition comes to: the requests made to the two locks, with their
/// replies, and the lease id or the reason for refusing.
pub struct Acquisition {
    pub lease: Seq<LeaseCall>,
    pub lock: Seq<LockCall>,
    pub result: Result<String, AcquireError>,
}

/// The start-up protocol, as a relation between requests, replies and result.
pub open spec fn protocol(clustered: bool, secs: i32, recovery_timeout: u128, a: Acquisition) -> bool {
    if clustered {
        &&& a.lease.len() > 0
        &&& a.lease[0] matches LeaseCall::Acquire { reply }
        &&& match reply {
            Err(e) => a.lease.len() == 1 && a.lock.len() == 0 && a.result == Err::<
                String,
                _,
            >(AcquireError::Cluster(e)),
            Ok(ClusterAcquire::HeldByLiveHolder { holder, since_renew }) => {
                &&& a.lease.len() == 1
                &&& a.lock.len() == 0
                &&& a.result == Err::<String, _>(
                    AcquireError::LiveHolder { holder, since_renew, recovery_timeout },
                )
            },
            Ok(ClusterAcquire::Acquired) => lock_protocol(true, secs, a),
        }
    } else {
        a.lease.len() == 0 && lock_protocol(false, secs, a)
    }
}

/// The cluster lease is given back, after it was won, exactly when `back`.
pub open spec fn given_back(clustered: bool, lease: Seq<LeaseCall>, back: bool) -> bool {
    if clustered && back {
        lease.len() == 2 && lease[1] is Release
    } else {
        lease.len() == (if clustered {
            1nat
        } else {
            0nat
        })
    }
}

/// The part of the protocol that takes the blob lease, breaking a stale one where
/// the cluster lease was won.
pub open spec fn lock_protocol(clustered: bool, secs: i32, a: Acquisition) -> bool {
    &&& a.lock.len() > 0
    &&& a.lock[0] matches LockCall::Acquire { secs: s, reply }
    &&& s == secs
    &&& match reply {
        Ok(id) => {
            &&& a.lock.len() == 1
            &&& given_back(clustered, a.lease, false)
            &&& a.result == Ok::<String, AcquireError>(id)
        },
        Err(LockError::Other(e)) => {
            &&& a.lock.len() == 1
            &&& given_back(clustered, a.lease, true)
            &&& a.result == Err::<String, _>(AcquireError::Blob(e))
        },
        Err(LockError::Held) => if !clustered {
            &&& a.lock.len() == 1
            &&& a.lease.len() == 0
            &&& a.result == Err::<String, _>(AcquireError::Held)
        } else {
            &&& a.lock.len() > 1
            &&& a.lock[1] matches LockCall::Break { reply: broken }
            &&& match broken {
                Err(e) => {
                    &&& a.lock.len() == 2
                    &&& given_back(clustered, a.lease, false)
                    &&& a.result == Err::<String, _>(AcquireError::Break(e))
                },
                Ok(_) => {
                    &&& a.lock.len() == 3
                    &&& a.lock[2] matches LockCall::Acquire { secs: s2, reply: again }
                    &&& s2 == secs
                    &&& match again {
                        Ok(id) => {
                            &&& given_back(clustered, a.lease, false)
                            &&& a.result == Ok::<String, AcquireError>(id)
                        },
                        Err(LockError::Held) => {
                            &&& given_back(clustered, a.lease, true)
                            &&& a.result == Err::<String, _>(AcquireError::Raced)
                        },
                        Err(LockError::Other(e)) => {
                            &&& given_back(clustered, a.lease, true)
                            &&& a.result == Err::<String, _>(AcquireError::Reacquire(e))
                        },
                    }
                },
            }
        },
    }
}

/// Orchestrates acquisition of the blob lock and, when a cluster lease is given,
/// of the cluster lease too.
pub struct Coordinator<C, B> {
    pub cluster: Option<C>,
    pub blob: B,
    pub config: CoordinationConfig,
}

/// The requests made of an optional cluster lease.
pub open spec fn lease_calls<C: ClusterLease>(c: Option<C>) -> Seq<LeaseCall> {
    match c {
        Some(x) => x.calls(),
        None => Seq::empty(),
    }
}

/// `now` extends `before` by `new`.
pub open spec fn extends<T>(before: Seq<T>, now: Seq<T>, new: Seq<T>) -> bool {
    now =~= before + new
}

impl<C: ClusterLease, B: BlobLock> Coordinator<C, B> {
    /// Create a coordinator over the given (optional) cluster lease and blob lock.
    /// Without a cluster lease it runs in single-process, blob-lock-only mode.
    pub fn new(cluster: Option<C>, blob: B, config: CoordinationConfig) -> (r: Self)
        ensures
            r.cluster == cluster,
            r.blob == blob,
            r.config == config,
    {
        Coordinator { cluster, blob, config }
    }

    fn give_back(&mut self)
        ensures
            final(self).blob == old(self).blob,
            final(self).config == old(self).config,
            final(self).cluster is Some == old(self).cluster is Some,
            old(self).cluster is Some ==> exists|r: Result<(), String>|
                lease_calls(final(self).cluster) == lease_calls(old(self).cluster).push(
                    #[trigger] release_call(r),
                ),
            old(self).cluster is None ==> lease_calls(final(self).cluster) == Seq::<
                LeaseCall,
            >::empty(),
    {
        match &mut self.cluster {
            Some(c) => {
                let r = c.release();
                assert(release_call(r) == LeaseCall::Release { reply: r });
            },
            None => {},
        }
    }

    /// Run the start-up protocol: acquire (or take over) both locks. The requests
    /// that it makes, in order, and what it returns for their replies are those
    /// of [`protocol`]; the locks come back with the result.
    pub fn acquire(self) -> (r: (Self, Result<CoordinationGuard, AcquireError>))
        requires
            self.config.valid(),
        ensures
            r.0.config == self.config,
            r.0.cluster is Some == self.cluster is Some,
            exists|a: Acquisition|
                {
                    &&& #[trigger] protocol(
                        self.cluster is Some,
                        (self.config.lease_duration / NANOS_PER_SEC) as i32,
                        self.config.recovery_timeout,
                        a,
                    )
                    &&& extends(lease_calls(self.cluster), lease_calls(r.0.cluster), a.lease)
                    &&& extends(self.blob.calls(), r.0.blob.calls(), a.lock)
                    &&& match a.result {
                        Ok(id) => r.1 matches Ok(g) && g.lease_id == id && g.clustered
                            == self.cluster is Some,
                        Err(e) => r.1 == Err::<CoordinationGuard, _>(e),
                    }
                },
    {
        let clustered = self.cluster.is_some();
        let secs: i32 = self.config.lease_duration_secs();
        let recovery_timeout: u128 = self.config.recovery_timeout;
        let mut this = self;
        let ghost lease0 = lease_calls(this.cluster);
        let ghost lock0 = this.blob.calls();
        let ghost mut lease_new: Seq<LeaseCall> = Seq::empty();
        assert(extends(lease0, lease_calls(this.cluster), lease_new));
        match &mut this.cluster {
            Some(c) => {
                let reply = c.try_acquire();
                proof {
                    lease_new = lease_new.push(LeaseCall::Acquire { reply });
                    assert(extends(lease0, c.calls(), lease_new));
                }
                match reply {
                    Err(e) => {
                        let ghost a = Acquisition {
                            lease: lease_new,
                            lock: Seq::empty(),
                            result: Err(AcquireError::Cluster(e)),
                        };
                        proof {
                            assert(protocol(true, secs, recovery_timeout, a));
                            assert(extends(lock0, this.blob.calls(), a.lock));
                        }
                        return (this, Err(AcquireError::Cluster(e)));
                    },
                    Ok(ClusterAcquire::HeldByLiveHolder { holder, since_renew }) => {
                        let ghost a = Acquisition {
                            lease: lease_new,
                            lock: Seq::empty(),
                            result: Err(
                                AcquireError::LiveHolder { holder, since_renew, recovery_timeout },
                            ),
                        };
                        proof {
                            assert(protocol(true, secs, recovery_timeout, a));
                            assert(extends(lock0, this.blob.calls(), a.lock));
                        }
                        return (
                            this,
                            Err(AcquireError::LiveHolder { holder, since_renew, recovery_timeout }),
                        );
                    },
                    Ok(ClusterAcquire::Acquired) => {},
                }
            },
            None => {},
        }
        let ghost lease1 = lease_calls(this.cluster);
        let first = this.blob.acquire(secs);
        let ghost lock_new = seq![LockCall::Acquire { secs, reply: first }];
        assert(extends(lock0, this.blob.calls(), lock_new));
        match first {
            Ok(id) => {
                let ghost a = Acquisition { lease: lease_new, lock: lock_new, result: Ok(id) };
                assert(protocol(clustered, secs, recovery_timeout, a));
                (this, Ok(CoordinationGuard { lease_id: id, clustered }))
            },
            Err(LockError::Other(e)) => {
                this.give_back();
                proof {
                    if clustered {
                        let back = choose|r: Result<(), String>|
                            lease_calls(this.cluster) == lease1.push(#[trigger] release_call(r));
                        lease_new = lease_new.push(release_call(back));
                    }
                    let a = Acquisition {
                        lease: lease_new,
                        lock: lock_new,
                        result: Err(AcquireError::Blob(e)),
                    };
                    assert(protocol(clustered, secs, recovery_timeout, a));
                    assert(extends(lease0, lease_calls(this.cluster), a.lease));
                }
                (this, Err(AcquireError::Blob(e)))
            },
            Err(LockError::Held) => {
                if !clustered {
                    let ghost a = Acquisition {
                        lease: lease_new,
                        lock: lock_new,
                        result: Err(AcquireError::Held),
                    };
                    assert(protocol(clustered, secs, recovery_timeout, a));
                    return (this, Err(AcquireError::Held));
                }
                let broken = this.blob.break_lock();
                let ghost lock_new = lock_new.push(LockCall::Break { reply: broken });
                assert(extends(lock0, this.blob.calls(), lock_new));
                match broken {
                    Err(e) => {
                        let ghost a = Acquisition {
                            lease: lease_new,
                            lock: lock_new,
                            result: Err(AcquireError::Break(e)),
                        };
                        assert(protocol(clustered, secs, recovery_timeout, a));
                        return (this, Err(AcquireError::Break(e)));
                    },
                    Ok(_) => {},
                }
                let again = this.blob.acquire(secs);
                let ghost lock_new = lock_new.push(LockCall::Acquire { secs, reply: again });
                assert(extends(lock0, this.blob.calls(), lock_new));
                match again {
                    Ok(id) => {
                        let ghost a = Acquisition {
                            lease: lease_new,
                            lock: lock_new,
                            result: Ok(id),
                        };
                        assert(protocol(clustered, secs, recovery_timeout, a));
                        (this, Ok(CoordinationGuard { lease_id: id, clustered }))
                    },
                    Err(fault) => {
                        this.give_back();
                        let why = match fault {
                            LockError::Held => AcquireError::Raced,
                            LockError::Other(e) => AcquireError::Reacquire(e),
                        };
                        proof {
                            let back = choose|r: Result<(), String>|
                                lease_calls(this.cluster) == lease1.push(
                                    #[trigger] release_call(r),
                                );
                            lease_new = lease_new.push(release_call(back));
                            let a = Acquisition {
                                lease: lease_new,
                                lock: lock_new,
                                result: Err(why),
                            };
                            assert(protocol(clustered, secs, recovery_timeout, a));
                            assert(extends(lease0, lease_calls(this.cluster), a.lease));
                        }
                        (this, Err(why))
                    },
                }
            },
        }
    }

    /// Refresh both leases once: the blob lease first, and the cluster lease
    /// whether or not that worked. The replies are for the owner to report.
    pub fn renew(&mut self, guard: &CoordinationGuard) -> (r: (
        Result<(), String>,
        Option<Result<(), String>>,
    ))
        ensures
            final(self).config == old(self).config,
            final(self).cluster is Some == old(self).cluster is Some,
            final(self).blob.calls() == old(self).blob.calls().push(
                (LockCall::Renew { id: guard.lease_id@, reply: r.0 }),
            ),
            match r.1 {
                Some(reply) => old(self).cluster is Some && lease_calls(final(self).cluster)
                    == lease_calls(old(self).cluster).push((LeaseCall::Renew { reply })),
                None => old(self).cluster is None,
            },
    {
        let first = self.blob.renew(guard.lease_id.as_str());
        let second = match &mut self.cluster {
            Some(c) => Some(c.renew()),
            None => None,
        };
        (first, second)
    }

    /// Release the blob lease, and the cluster lease when there is one, so another
    /// node can take the volume over immediately. The cluster lease is released
    /// whether or not the blob lease could be.
    pub fn release(&mut self, guard: CoordinationGuard) -> (r: (
        Result<(), String>,
        Option<Result<(), String>>,
    ))
        ensures
            final(self).config == old(self).config,
            final(self).cluster is Some == old(self).cluster is Some,
            final(self).blob.calls() == old(self).blob.calls().push(
                (LockCall::Release { id: guard.lease_id@, reply: r.0 }),
            ),
            match r.1 {
                Some(reply) => old(self).cluster is Some && lease_calls(final(self).cluster)
                    == lease_calls(old(self).cluster).push((LeaseCall::Release { reply })),
                None => old(self).cluster is None,
            },
    {
        let first = self.blob.release(guard.lease_id.as_str());
        let second = match &mut self.cluster {
            Some(c) => Some(c.release()),
            None => None,
        };
        (first, second)
    }
}

/// A release of the cluster lease with a given reply.
pub open spec fn release_call(reply: Result<(), String>) -> LeaseCall {
    LeaseCall::Release { reply }
}

/// The leases held for a mounted device.
#[derive(Debug)]
pub struct CoordinationGuard {
    pub lease_id: String,
    pub clustered: bool,
}

impl CoordinationGuard {
    /// The blob-lease id (`x-ms-lease-id`) held for this mount. Every mutating
    /// request to the leased page blob must carry it.
    pub fn lease_id(&self) -> (r: &String)
        ensures
            *r == self.lease_id,
    {
        &self.lease_id
    }
}

// ── Laws ────────────────────────────────────────────────────────────────────

/// A blob lease is broken only by a node that has won the cluster lease, and only
/// after the blob lease was found held.
pub proof fn a_lease_is_broken_only_after_the_cluster_lease_is_won(
    clustered: bool,
    secs: i32,
    recovery_timeout: u128,
    a: Acquisition,
    i: int,
)
    requires
        protocol(clustered, secs, recovery_timeout, a),
        0 <= i < a.lock.len(),
        a.lock[i] is Break,
    ensures
        clustered,
        a.lease.len() > 0,
        a.lease[0] == (LeaseCall::Acquire { reply: Ok(ClusterAcquire::Acquired) }),
        i == 1,
        a.lock[0] == (LockCall::Acquire { secs, reply: Err(LockError::Held) }),
{
}

/// Nothing is asked of the blob lock while a live node holds the cluster lease.
pub proof fn a_live_holder_is_left_alone(
    clustered: bool,
    secs: i32,
    recovery_timeout: u128,
    a: Acquisition,
)
    requires
        protocol(clustered, secs, recovery_timeout, a),
        a.result matches Err(AcquireError::LiveHolder { .. }),
    ensures
        a.lock.len() == 0,
        a.lease.len() == 1,
{
}

/// A volume is mounted only under a blob lease that the lock has just granted,
/// and, in a cluster, only while the cluster lease is held.
pub proof fn mounting_needs_the_blob_lease(
    clustered: bool,
    secs: i32,
    recovery_timeout: u128,
    a: Acquisition,
)
    requires
        protocol(clustered, secs, recovery_timeout, a),
        a.result is Ok,
    ensures
        a.lock.len() > 0,
        a.lock.last() == (LockCall::Acquire { secs, reply: Ok(a.result->Ok_0) }),
        clustered ==> a.lease =~= seq![
            LeaseCall::Acquire { reply: Ok(ClusterAcquire::Acquired) },
        ],
{
}

/// A cluster lease that was won is given back when the blob lease cannot be
/// taken, unless it was the breaking of a stale blob lease that failed.
pub proof fn a_refusal_gives_the_cluster_lease_back(secs: i32, recovery_timeout: u128, a: Acquisition)
    requires
        protocol(true, secs, recovery_timeout, a),
        a.lease[0] == (LeaseCall::Acquire { reply: Ok(ClusterAcquire::Acquired) }),
        a.result matches Err(e) && e !is Break,
    ensures
        a.lease.len() == 2,
        a.lease[1] is Release,
{
}

/// A lease duration inside Azure's window is kept in whole seconds; a shorter one becomes
/// 15 seconds, a longer one 60.
pub proof fn a_lease_duration_is_kept_inside_the_window(nanos: u128)
    ensures
        15 <= clamped_secs(nanos) <= 60,
        15_000_000_000 <= nanos < 61_000_000_000 ==> clamped_secs(nanos) * 1_000_000_000 <= nanos < (
        clamped_secs(nanos) + 1) * 1_000_000_000,
        nanos < 15_000_000_000 ==> clamped_secs(nanos) == 15,
        nanos >= 60_000_000_000 ==> clamped_secs(nanos) == 60,
{
}

/// A blob lease that the lock grants at once is what the volume is mounted under.
pub proof fn a_granted_lease_is_used(
    clustered: bool,
    secs: i32,
    recovery_timeout: u128,
    a: Acquisition,
    id: String,
)
    requires
        protocol(clustered, secs, recovery_timeout, a),
        a.lock.len() > 0,
        a.lock[0] == (LockCall::Acquire { secs, reply: Ok(id) }),
    ensures
        a.result == Ok::<String, AcquireError>(id),
        a.lock.len() == 1,
        a.lease.len() == (if clustered {
            1nat
        } else {
            0nat
        }),
{
}

/// A node that has won the cluster lease takes the blob lease over from a dead holder:
/// it breaks the lease that it found held, asks once more for the same duration, and
/// mounts exactly when that is granted.
pub proof fn a_dead_holder_is_taken_over(secs: i32, recovery_timeout: u128, a: Acquisition)
    requires
        protocol(true, secs, recovery_timeout, a),
        a.lock.len() > 0,
        a.lock[0] == (LockCall::Acquire { secs, reply: Err(LockError::Held) }),
    ensures
        a.lease[0] == (LeaseCall::Acquire { reply: Ok(ClusterAcquire::Acquired) }),
        a.lock.len() >= 2,
        a.lock[1] is Break,
        a.lock[1] matches LockCall::Break { reply: Ok(_) } ==> a.lock.len() == 3 && (
        a.lock[2] matches LockCall::Acquire { secs: s, reply } && s == secs && (a.result is Ok
            <==> reply is Ok) && (reply matches Ok(id) ==> a.result == Ok::<String, AcquireError>(id))),
        a.lock[1] matches LockCall::Break { reply: Err(e) } ==> a.lock.len() == 2 && a.result == Err::<
            String,
            AcquireError,
        >(AcquireError::Break(e)),
{
}

/// A process on its own leaves a held blob lease alone.
pub proof fn a_lone_process_respects_a_held_lease(secs: i32, recovery_timeout: u128, a: Acquisition)
    requires
        protocol(false, secs, recovery_timeout, a),
    ensures
        a.lease.len() == 0,
        a.lock.len() == 1,
        a.lock[0] matches LockCall::Acquire { secs: s, reply } && s == secs && (a.result is Ok
            <==> reply is Ok) && (reply matches Err(LockError::Held) ==> a.result == Err::<
            String,
            AcquireError,
        >(AcquireError::Held)),
{
}

/// In a cluster the cluster lease is asked for first, and the blob lease only if it was
/// won; what stands in the way is what the refusal names.
pub proof fn the_cluster_lease_comes_first(secs: i32, recovery_timeout: u128, a: Acquisition)
    requires
        protocol(true, secs, recovery_timeout, a),
    ensures
        a.lease.len() > 0,
        a.lease[0] is Acquire,
        a.lock.len() > 0 <==> a.lease[0] == (LeaseCall::Acquire {
            reply: Ok(ClusterAcquire::Acquired),
        }),
        a.lease[0] matches LeaseCall::Acquire { reply: Err(e) } ==> a.result == Err::<
            String,
            AcquireError,
        >(AcquireError::Cluster(e)),
        a.lease[0] matches LeaseCall::Acquire {
            reply: Ok(ClusterAcquire::HeldByLiveHolder { holder, since_renew }),
        } ==> a.result == Err::<String, AcquireError>(
            AcquireError::LiveHolder { holder, since_renew, recovery_timeout },
        ),
{
}

/// A blob lease that cannot be had is reported by what the lock said last: a fault at
/// the first request, a fault at the second, or another node that was faster.
pub proof fn a_refused_blob_lease_is_named(
    clustered: bool,
    secs: i32,
    recovery_timeout: u128,
    a: Acquisition,
)
    requires
        protocol(clustered, secs, recovery_timeout, a),
        a.lock.len() > 0,
    ensures
        a.lock[0] matches LockCall::Acquire { reply: Err(LockError::Other(e)), .. } ==> a.lock.len()
            == 1 && a.result == Err::<String, AcquireError>(AcquireError::Blob(e)),
        a.lock.len() == 3 ==> (a.lock[2] matches LockCall::Acquire {
            reply: Err(LockError::Other(e)),
            ..
        } ==> a.result == Err::<String, AcquireError>(AcquireError::Reacquire(e))),
        a.lock.len() == 3 ==> (a.lock[2] matches LockCall::Acquire {
            reply: Err(LockError::Held),
            ..
        } ==> a.result == Err::<String, AcquireError>(AcquireError::Raced)),
        a.lock.len() <= 3,
        a.lock.last() is Acquire || a.lock.last() is Break,
{
}

} // verus!

//! The `BlobBackend` trait, its errors, and what its implementations share.
//!
//! A backend is a page-blob-like byte store. Offsets and lengths are multiples
//! of 512 bytes. The trait's contracts say what a successful call did to the
//! store's bytes; whether a call succeeds is for the implementation to decide,
//! and the implementations in this crate say exactly when they do.
//!
//! Every call is on record in the history of a store's requests, so that the
//! contracts of what stands above a store can say what it is asked.

use vstd::prelude::*;

use crate::text;

pub mod azure;
pub mod bitmap;
pub mod buffered;
pub mod cache_budget;
pub mod cache_index;
pub mod cache_lru;
pub mod cache_meta;
pub mod file;
pub mod io_gateway;
pub mod maps;
pub mod mem;
pub mod pages;

verus! {

/// Alignment of every offset and length, in bytes.
pub const PAGE_ALIGN: u64 = 512;

/// Maximum bytes per page write request (4 MiB).
pub const MAX_PAGE_REQUEST_BYTES: u64 = 4194304;

/// The operations that check their range.
#[derive(Debug, Clone, Copy, PartialEq, Eq, Structural)]
pub enum Op {
    Read,
    Write,
    Clear,
    Prefetch,
}

/// Why a backend refused or failed a call.
#[derive(Debug)]
pub enum BackendError {
    /// `value` is not a multiple of `align`.
    Misaligned { name: String, value: u64, align: u64 },
    /// A store cannot have no bytes.
    EmptySize,
    /// `size` bytes cannot be addressed on this machine.
    TooLarge { size: u64 },
    /// The range is not aligned to 512 bytes.
    UnalignedRange { op: Op, offset: u64, len: u64 },
    /// `offset + len` does not fit in 64 bits.
    Overflow { op: Op, offset: u64, len: u64 },
    /// The range leaves the store.
    OutOfBounds { op: Op, offset: u64, len: u64, size: u64 },
    /// A read came back with `got` bytes in place of `expected`.
    ShortRead { offset: u64, expected: u64, got: u64 },
    /// A store does not shrink.
    Shrink { size: u64, new_size: u64 },
    /// The recency clock has run out.
    ClockExhausted,
    /// A configuration value is not acceptable.
    BadConfig { name: String, value: u64 },
    /// The operation is not offered by this store.
    Unsupported,
    /// The store is an immutable snapshot.
    ReadOnly,
    /// The store itself failed.
    Failed(String),
}

/// `n` zero bytes.
pub open spec fn zeros(n: nat) -> Seq<u8> {
    Seq::new(n, |i: int| 0u8)
}

/// The first `n` bytes of `s`.
pub open spec fn prefix(s: Seq<u8>, n: int) -> Seq<u8> {
    Seq::new(n as nat, |i: int| s[i])
}

/// `s` with the bytes from `at` on replaced by `d`.
pub open spec fn splice(s: Seq<u8>, at: int, d: Seq<u8>) -> Seq<u8> {
    Seq::new(s.len(), |i: int| if at <= i < at + d.len() { d[i - at] } else { s[i] })
}

/// `a` is `before` after a change to `after` that failed part way: each byte is the
/// old one or the new one.
pub open spec fn torn(a: Seq<u8>, before: Seq<u8>, after: Seq<u8>) -> bool {
    &&& a.len() == before.len()
    &&& forall|i: int| 0 <= i < a.len() ==> #[trigger] a[i] == before[i] || a[i] == after[i]
}

/// A range that a store of `size` bytes is asked for in whole 512-byte blocks.
pub open spec fn fair_range(offset: int, len: int, size: int) -> bool {
    size % 512 == 0 && offset % 512 == 0 && len % 512 == 0 && offset + len <= size
}

/// A size in whole 512-byte blocks that can be held in memory.
pub open spec fn fair_size(size: u64) -> bool {
    0 < size <= usize::MAX && size % 512 == 0
}

/// Byte `i` of `s` is `b`, or is `b` on durable storage, or may become so there.
pub open spec fn may_hold<S: BlobBackend>(s: S, i: int, b: u8) -> bool {
    b == s.bytes()[i] || b == s.durable()[i] || s.afloat(i, b)
}

/// Whatever a byte of `after` is, or may be after a crash, it is or may be in
/// `before`, or is the byte of `x` or of `y`.
pub open spec fn drifted<S: BlobBackend>(after: S, before: S, x: Seq<u8>, y: Seq<u8>) -> bool {
    &&& after.durable().len() == before.durable().len() || after.durable().len()
        == before.bytes().len()
    &&& forall|i: int, b: u8|
        0 <= i < before.bytes().len() && #[trigger] may_hold(after, i, b) ==> may_hold(before, i, b)
            || b == x[i] || b == y[i]
}

/// Nothing of `s` is still on its way to durable storage.
pub open spec fn settled<S: BlobBackend>(s: S) -> bool {
    &&& s.durable() == s.bytes()
    &&& forall|i: int, b: u8|
        0 <= i < s.bytes().len() && #[trigger] s.afloat(i, b) ==> b == s.bytes()[i]
}

/// What a crash may leave of `s`: of each byte the durable value, or one that was on
/// its way there.
pub open spec fn survives<S: BlobBackend>(s: S, image: Seq<u8>) -> bool {
    &&& image.len() == s.durable().len()
    &&& forall|i: int|
        0 <= i < image.len() ==> #[trigger] image[i] == s.durable()[i] || s.afloat(i, image[i])
}

/// A request to a store; that for a snapshot with the identifier it came to.
pub enum Request {
    Create { size: u64 },
    Read { offset: u64, len: u64 },
    Write { offset: u64, data: Seq<u8> },
    Clear { offset: u64, len: u64 },
    Discard { offset: u64, len: u64 },
    Flush,
    Resize { new_size: u64 },
    Delete,
    Size,
    Snapshot { id: Option<Seq<char>> },
}

/// The identifier in the reply to a request for a snapshot.
pub open spec fn snapshot_id(r: Result<String, BackendError>) -> Option<Seq<char>> {
    match r {
        Ok(id) => Some(id@),
        Err(_) => None,
    }
}

/// A page-blob-like byte store.
///
/// The spec methods describe the state of a store. Their default bodies are one
/// unknown constant, which is there so that a store written in ordinary Rust, whose
/// contracts nobody checks, need not give them: for such a store they are to be read
/// as the history of its calls. A store that is verified gives its own, because with
/// the constants it could not meet the contracts.
pub trait BlobBackend: Sized {
    /// The bytes that a read sees.
    closed spec fn bytes(&self) -> Seq<u8> {
        arbitrary()
    }

    /// The bytes that outlive the process.
    closed spec fn durable(&self) -> Seq<u8> {
        arbitrary()
    }

    /// What the implementation keeps between calls.
    closed spec fn valid(&self) -> bool {
        true
    }

    /// The requests made so far.
    closed spec fn requests(&self) -> Seq<Request> {
        arbitrary()
    }

    /// Creating the store anew leaves nothing of what it held before.
    closed spec fn wipes(&self) -> bool {
        arbitrary()
    }

    /// Byte `i` was given the value `b`, which may come to stand on durable storage.
    closed spec fn afloat(&self, i: int, b: u8) -> bool {
        arbitrary()
    }

    /// The store has been deleted.
    closed spec fn gone(&self) -> bool {
        arbitrary()
    }

    /// How many fair requests the store has failed so far. A request is fair where
    /// it keeps to whole 512-byte blocks inside the store; whether it succeeds is
    /// up to the store alone, which counts those that do not.
    closed spec fn faults(&self) -> nat {
        arbitrary()
    }

    /// Create the store, or size it anew. A store that wipes itself holds zeros then;
    /// another may find that it exists already, and keep what it holds. After a failure
    /// the store is as the implementation says; nothing is promised of it here.
    fn create(&mut self, size: u64) -> (r: Result<(), BackendError>)
        requires
            old(self).valid(),
        ensures
            final(self).requests() == old(self).requests().push((Request::Create { size })),
            r is Ok ==> final(self).valid() && final(self).bytes().len() == size,
            r is Ok && old(self).wipes() ==> final(self).bytes() == zeros(size as nat),
            final(self).faults() >= old(self).faults(),
            r is Err && fair_size(size) ==> final(self).faults() > old(self).faults(),
    ;

    /// Read `len` bytes starting at `offset`.
    fn read(&mut self, offset: u64, len: u64) -> (r: Result<Vec<u8>, BackendError>)
        requires
            old(self).valid(),
        ensures
            final(self).requests() == old(self).requests().push((Request::Read { offset, len })),
            final(self).valid(),
            final(self).bytes() == old(self).bytes(),
            final(self).durable() == old(self).durable(),
            r matches Ok(data) ==> data@.len() == len > 0 ==> offset + len <= old(self).bytes().len()
                && data@ == old(self).bytes().subrange(offset as int, offset + len),
            forall|i: int, b: u8| #[trigger] final(self).afloat(i, b) ==> old(self).afloat(i, b),
            final(self).faults() >= old(self).faults(),
            fair_range(offset as int, len as int, old(self).bytes().len() as int) && !(r matches Ok(
                data,
            ) && data@.len() == len) ==> final(self).faults() > old(self).faults(),
    ;

    /// Write `data` starting at `offset`. Whatever a byte is on durable storage
    /// afterwards, or may become there, it was or might have become before, or the store
    /// held it, or it was written now.
    fn write(&mut self, offset: u64, data: &Vec<u8>) -> (r: Result<(), BackendError>)
        requires
            old(self).valid(),
        ensures
            final(self).requests() == old(self).requests().push((Request::Write { offset, data: data@ })),
            final(self).valid(),
            r is Ok ==> (data@.len() > 0 ==> offset + data@.len() <= old(self).bytes().len())
                && final(self).bytes() == splice(old(self).bytes(), offset as int, data@),
            r is Err ==> torn(
                final(self).bytes(),
                old(self).bytes(),
                splice(old(self).bytes(), offset as int, data@),
            ),
            final(self).durable().len() == old(self).durable().len() || final(self).durable().len()
                == old(self).bytes().len(),
            forall|i: int|
                0 <= i < old(self).bytes().len() ==> #[trigger] final(self).durable()[i] == old(
                    self,
                ).durable()[i] || old(self).afloat(i, final(self).durable()[i]) || final(self).durable()[i]
                    == old(self).bytes()[i] || final(self).durable()[i] == splice(old(self).bytes(), offset as int, data@)[i],
            forall|i: int, b: u8|
                0 <= i < old(self).bytes().len() && #[trigger] final(self).afloat(i, b) ==> old(self).afloat(i, b)
                    || b == old(self).durable()[i] || b == old(self).bytes()[i] || b == splice(old(self).bytes(), offset as int, data@)[i],
            final(self).faults() >= old(self).faults(),
            r is Err && fair_range(
                offset as int,
                data@.len() as int,
                old(self).bytes().len() as int,
            ) ==> final(self).faults() > old(self).faults(),
    ;

    /// Zero the region `[offset, offset + len)`.
    fn clear(&mut self, offset: u64, len: u64) -> (r: Result<(), BackendError>)
        requires
            old(self).valid(),
        ensures
            final(self).requests() == old(self).requests().push((Request::Clear { offset, len })),
            final(self).valid(),
            r is Ok ==> (len > 0 ==> offset + len <= old(self).bytes().len())
                && final(self).bytes() == splice(old(self).bytes(), offset as int, zeros(len as nat)),
            r is Err ==> torn(
                final(self).bytes(),
                old(self).bytes(),
                splice(old(self).bytes(), offset as int, zeros(len as nat)),
            ),
            final(self).durable().len() == old(self).durable().len() || final(self).durable().len()
                == old(self).bytes().len(),
            forall|i: int|
                0 <= i < old(self).bytes().len() ==> #[trigger] final(self).durable()[i] == old(
                    self,
                ).durable()[i] || old(self).afloat(i, final(self).durable()[i]) || final(self).durable()[i]
                    == old(self).bytes()[i] || final(self).durable()[i] == splice(old(self).bytes(), offset as int, zeros(len as nat))[i],
            forall|i: int, b: u8|
                0 <= i < old(self).bytes().len() && #[trigger] final(self).afloat(i, b) ==> old(self).afloat(i, b)
                    || b == old(self).durable()[i] || b == old(self).bytes()[i] || b == splice(old(self).bytes(), offset as int, zeros(len as nat))[i],
            final(self).faults() >= old(self).faults(),
            r is Err && fair_range(offset as int, len as int, old(self).bytes().len() as int)
                ==> final(self).faults() > old(self).faults(),
    ;

    /// Give back the space of `[offset, offset + len)`, which reads as zeros
    /// afterwards. A failure changes nothing.
    fn discard(&mut self, offset: u64, len: u64) -> (r: Result<(), BackendError>)
        requires
            old(self).valid(),
        ensures
            final(self).requests() == old(self).requests().push((Request::Discard { offset, len })),
            final(self).valid(),
            r is Ok ==> (len > 0 ==> offset + len <= old(self).bytes().len())
                && final(self).bytes() == splice(old(self).bytes(), offset as int, zeros(len as nat)),
            r is Err ==> final(self).bytes() == old(self).bytes(),
            final(self).durable().len() == old(self).durable().len() || final(self).durable().len()
                == old(self).bytes().len(),
            forall|i: int|
                0 <= i < old(self).bytes().len() ==> #[trigger] final(self).durable()[i] == old(
                    self,
                ).durable()[i] || old(self).afloat(i, final(self).durable()[i]) || final(self).durable()[i]
                    == old(self).bytes()[i] || final(self).durable()[i] == splice(old(self).bytes(), offset as int, zeros(len as nat))[i],
            forall|i: int, b: u8|
                0 <= i < old(self).bytes().len() && #[trigger] final(self).afloat(i, b) ==> old(self).afloat(i, b)
                    || b == old(self).durable()[i] || b == old(self).bytes()[i] || b == splice(old(self).bytes(), offset as int, zeros(len as nat))[i],
            final(self).faults() >= old(self).faults(),
            r is Err && fair_range(offset as int, len as int, old(self).bytes().len() as int)
                ==> final(self).faults() > old(self).faults(),
    ;

    /// Push every pending write to durable storage.
    fn flush(&mut self) -> (r: Result<(), BackendError>)
        requires
            old(self).valid(),
        ensures
            final(self).requests() == old(self).requests().push(Request::Flush),
            final(self).valid(),
            final(self).bytes() == old(self).bytes(),
            r is Ok ==> final(self).durable() == final(self).bytes(),
            r is Ok ==> forall|i: int, b: u8|
                0 <= i < old(self).bytes().len() && #[trigger] final(self).afloat(i, b) ==> b
                    == final(self).bytes()[i],
            final(self).durable().len() == old(self).durable().len() || final(self).durable().len()
                == old(self).bytes().len(),
            forall|i: int|
                0 <= i < old(self).bytes().len() ==> #[trigger] final(self).durable()[i] == old(
                    self,
                ).durable()[i] || old(self).afloat(i, final(self).durable()[i]) || final(self).durable()[i]
                    == old(self).bytes()[i],
            forall|i: int, b: u8|
                0 <= i < old(self).bytes().len() && #[trigger] final(self).afloat(i, b) ==> old(self).afloat(i, b)
                    || b == old(self).durable()[i] || b == old(self).bytes()[i],
            final(self).faults() >= old(self).faults(),
            r is Err && old(self).bytes().len() % 512 == 0 ==> final(self).faults() > old(self).faults(),
    ;

    /// Grow the store to `new_size` bytes; the new bytes are zero.
    fn resize(&mut self, new_size: u64) -> (r: Result<(), BackendError>)
        requires
            old(self).valid(),
        ensures
            final(self).requests() == old(self).requests().push((Request::Resize { new_size })),
            final(self).valid(),
            r is Ok ==> old(self).bytes().len() <= new_size && final(self).bytes() == old(self).bytes() + zeros((new_size - old(self).bytes().len()) as nat),
            r is Err ==> final(self).bytes() == old(self).bytes(),
            final(self).faults() >= old(self).faults(),
            r is Err && fair_size(new_size) && old(self).bytes().len() <= new_size
                ==> final(self).faults() > old(self).faults(),
    ;

    /// Delete the store, which serves no calls afterwards.
    fn delete(&mut self) -> (r: Result<(), BackendError>)
        requires
            old(self).valid(),
        ensures
            final(self).requests() == old(self).requests().push(Request::Delete),
            r is Ok ==> final(self).gone(),
            final(self).faults() >= old(self).faults(),
            r is Err ==> final(self).faults() > old(self).faults(),
    ;

    /// The number of bytes of the store.
    fn size(&mut self) -> (r: Result<u64, BackendError>)
        requires
            old(self).valid(),
        ensures
            final(self).requests() == old(self).requests().push(Request::Size),
            final(self).valid(),
            final(self).bytes() == old(self).bytes(),
            final(self).durable() == old(self).durable(),
            r matches Ok(n) ==> n == old(self).bytes().len(),
            forall|i: int, b: u8| #[trigger] final(self).afloat(i, b) ==> old(self).afloat(i, b),
            final(self).faults() >= old(self).faults(),
            r is Err ==> final(self).faults() > old(self).faults(),
    ;

    /// Freeze the store's bytes as a snapshot and return its identifier.
    fn snapshot(&mut self) -> (r: Result<String, BackendError>)
        requires
            old(self).valid(),
        ensures
            final(self).requests() == old(self).requests().push((Request::Snapshot { id: snapshot_id(r) })),
            final(self).valid(),
            final(self).bytes() == old(self).bytes(),
            final(self).durable() == old(self).durable(),
            final(self).faults() >= old(self).faults(),
    ;
}

/// A call that changed `before` towards `goal` drifts no further than that.
pub proof fn a_change_drifts<S: BlobBackend>(after: S, before: S, goal: Seq<u8>)
    requires
        after.bytes().len() == before.bytes().len(),
        after.durable().len() == before.durable().len() || after.durable().len()
            == before.bytes().len(),
        forall|i: int|
            0 <= i < before.bytes().len() ==> #[trigger] after.bytes()[i] == before.bytes()[i]
                || after.bytes()[i] == goal[i],
        forall|i: int|
            0 <= i < before.bytes().len() ==> #[trigger] after.durable()[i] == before.durable()[i]
                || before.afloat(i, after.durable()[i]) || after.durable()[i] == before.bytes()[i]
                || after.durable()[i] == goal[i],
        forall|i: int, b: u8|
            0 <= i < before.bytes().len() && #[trigger] after.afloat(i, b) ==> before.afloat(i, b)
                || b == before.durable()[i] || b == before.bytes()[i] || b == goal[i],
    ensures
        drifted(after, before, goal, goal),
{
}

/// What drifted says of the bytes on durable storage and of those on their way.
pub proof fn a_drift_shows<S: BlobBackend>(after: S, before: S, x: Seq<u8>, y: Seq<u8>)
    requires
        drifted(after, before, x, y),
    ensures
        forall|i: int|
            0 <= i < before.bytes().len() ==> may_hold(before, i, #[trigger] after.durable()[i])
                || after.durable()[i] == x[i] || after.durable()[i] == y[i],
        forall|i: int, b: u8|
            0 <= i < before.bytes().len() && #[trigger] after.afloat(i, b) ==> may_hold(before, i, b)
                || b == x[i] || b == y[i],
        forall|i: int|
            0 <= i < before.bytes().len() ==> may_hold(before, i, #[trigger] after.bytes()[i])
                || after.bytes()[i] == x[i] || after.bytes()[i] == y[i],
{
    assert forall|i: int| 0 <= i < before.bytes().len() implies may_hold(
        before,
        i,
        #[trigger] after.durable()[i],
    ) || after.durable()[i] == x[i] || after.durable()[i] == y[i] by {
        assert(may_hold(after, i, after.durable()[i]));
    }
    assert forall|i: int, b: u8|
        0 <= i < before.bytes().len() && #[trigger] after.afloat(i, b) implies may_hold(before, i, b)
        || b == x[i] || b == y[i] by {
        assert(may_hold(after, i, b));
    }
    assert forall|i: int| 0 <= i < before.bytes().len() implies may_hold(
        before,
        i,
        #[trigger] after.bytes()[i],
    ) || after.bytes()[i] == x[i] || after.bytes()[i] == y[i] by {
        assert(may_hold(after, i, after.bytes()[i]));
    }
}

/// One drift after another is one drift.
pub proof fn drifts_add_up<S: BlobBackend>(
    after: S,
    mid: S,
    before: S,
    w: Seq<u8>,
    x: Seq<u8>,
    y: Seq<u8>,
)
    requires
        drifted(mid, before, x, y),
        drifted(after, mid, w, w),
        mid.bytes().len() == before.bytes().len(),
        forall|i: int|
            0 <= i < before.bytes().len() ==> #[trigger] w[i] == x[i] || w[i] == y[i] || w[i]
                == mid.bytes()[i],
    ensures
        drifted(after, before, x, y),
{
    assert forall|i: int, b: u8|
        0 <= i < before.bytes().len() && #[trigger] may_hold(after, i, b) implies may_hold(
        before,
        i,
        b,
    ) || b == x[i] || b == y[i] by {
        assert(may_hold(mid, i, b) || b == w[i]);
        if w[i] == mid.bytes()[i] {
            assert(may_hold(mid, i, w[i]));
        }
    }
}

/// A drift towards `y` after one that changed no byte is one drift.
pub proof fn drifts_add_up_to<S: BlobBackend>(
    after: S,
    mid: S,
    before: S,
    x: Seq<u8>,
    y: Seq<u8>,
)
    requires
        drifted(mid, before, x, x),
        drifted(after, mid, x, y),
        mid.bytes().len() == before.bytes().len(),
    ensures
        drifted(after, before, x, y),
{
}

/// What is read where something was just written is what was written.
pub proof fn read_gives_back_write(s: Seq<u8>, at: int, d: Seq<u8>)
    requires
        0 <= at,
        at + d.len() <= s.len(),
    ensures
        splice(s, at, d).subrange(at, at + d.len() as int) == d,
{
    assert(splice(s, at, d).subrange(at, at + d.len() as int) =~= d);
}

/// What is read beside something that was just written is what was there before.
pub proof fn write_leaves_the_rest(s: Seq<u8>, at: int, d: Seq<u8>, from: int, len: int)
    requires
        0 <= at,
        at + d.len() <= s.len(),
        0 <= from,
        0 <= len,
        from + len <= s.len(),
        from + len <= at || at + d.len() <= from,
    ensures
        splice(s, at, d).subrange(from, from + len) == s.subrange(from, from + len),
{
    assert(splice(s, at, d).subrange(from, from + len) =~= s.subrange(from, from + len));
}

/// What is read where something was just cleared is zero.
pub proof fn read_after_clear_is_zero(s: Seq<u8>, at: int, len: nat)
    requires
        0 <= at,
        at + len <= s.len(),
    ensures
        splice(s, at, zeros(len)).subrange(at, at + len as int) == zeros(len),
{
    read_gives_back_write(s, at, zeros(len));
}

/// How a smoke test ended.
#[derive(Debug)]
pub enum SmokeTest {
    /// Every step worked and every byte was as it should be.
    Passed,
    /// The pattern did not read back.
    WriteMismatch,
    /// The cleared page did not read back as zeros.
    ClearMismatch,
    /// A step failed.
    Failed(BackendError),
}

/// What a smoke test asks of a store of `size` bytes, step by step.
pub open spec fn smoke_requests(size: u64) -> Seq<Request> {
    seq![
        Request::Create { size },
        Request::Write { offset: 0, data: Seq::new(512, |i: int| 0xABu8) },
        Request::Read { offset: 0, len: 512 },
        Request::Clear { offset: 0, len: 512 },
        Request::Read { offset: 0, len: 512 },
    ]
}

/// Create, write, read back, clear, read zeros: a connectivity check.
///
/// On a store that keeps its contract the test passes or a step fails, and on a
/// size that is in order a step fails only where the store does; bytes that read
/// back wrong show a store that does not keep its contract.
pub fn smoke_test<B: BlobBackend>(store: &mut B, size: u64) -> (r: SmokeTest)
    requires
        old(store).valid(),
    ensures
        r is Passed || r is Failed,
        r is Passed ==> final(store).valid() && final(store).bytes().len() == size && size >= 512
            && final(store).bytes().subrange(0, 512) == zeros(512),
        r is Passed ==> final(store).requests() == old(store).requests() + smoke_requests(size),
        r is Failed && fair_size(size) ==> final(store).faults() > old(store).faults(),
{
    match store.create(size) {
        Ok(()) => {},
        Err(e) => {
            return SmokeTest::Failed(e);
        },
    }
    let pattern: Vec<u8> = vec![0xABu8; 512];
    assert(pattern@ =~= Seq::new(512, |i: int| 0xABu8));
    match store.write(0, &pattern) {
        Ok(()) => {},
        Err(e) => {
            return SmokeTest::Failed(e);
        },
    }
    let back = match store.read(0, 512) {
        Ok(back) => back,
        Err(e) => {
            return SmokeTest::Failed(e);
        },
    };
    if back.len() != 512 {
        return SmokeTest::Failed(
            BackendError::ShortRead { offset: 0, expected: 512, got: back.len() as u64 },
        );
    }
    assert(back@ =~= pattern@);
    if !same_bytes(&back, &pattern) {
        return SmokeTest::WriteMismatch;
    }
    match store.clear(0, 512) {
        Ok(()) => {},
        Err(e) => {
            return SmokeTest::Failed(e);
        },
    }
    let zeroed = match store.read(0, 512) {
        Ok(zeroed) => zeroed,
        Err(e) => {
            return SmokeTest::Failed(e);
        },
    };
    if zeroed.len() != 512 {
        return SmokeTest::Failed(
            BackendError::ShortRead { offset: 0, expected: 512, got: zeroed.len() as u64 },
        );
    }
    assert(zeroed@ =~= zeros(512));
    if !pages::all_zero(&zeroed) {
        return SmokeTest::ClearMismatch;
    }
    assert(store.requests() =~= old(store).requests() + smoke_requests(size));
    SmokeTest::Passed
}

/// Whether two byte strings are equal.
pub fn same_bytes(a: &Vec<u8>, b: &Vec<u8>) -> (r: bool)
    ensures
        r == (a@ == b@),
{
    if a.len() != b.len() {
        return false;
    }
    let mut i: usize = 0;
    while i < a.len()
        invariant
            i <= a@.len(),
            a@.len() == b@.len(),
            forall|j: int| 0 <= j < i ==> a@[j] == b@[j],
        decreases a@.len() - i,
    {
        if a[i] != b[i] {
            return false;
        }
        i = i + 1;
    }
    assert(a@ =~= b@);
    true
}

/// Whether `value` is a multiple of `align`.
pub fn check_alignment(value: u64, align: u64, name: &str) -> (r: Result<(), BackendError>)
    requires
        align > 0,
    ensures
        match r {
            Ok(()) => value % align == 0,
            Err(e) => value % align != 0 && (e matches BackendError::Misaligned {
                name: n,
                value: v,
                align: a,
            } && n@ == name@ && v == value && a == align),
        },
{
    if value % align != 0 {
        return Err(BackendError::Misaligned { name: name.to_owned(), value, align });
    }
    Ok(())
}

/// Reject requests whose `[offset, offset + len)` leaves the device.
pub fn check_in_bounds(op: Op, offset: u64, len: u64, dev_size: u64) -> (r: Result<(), BackendError>)
    ensures
        match r {
            Ok(()) => offset + len <= dev_size,
            Err(e) => if offset + len > u64::MAX {
                e == (BackendError::Overflow { op, offset, len })
            } else {
                &&& offset + len > dev_size
                &&& e == (BackendError::OutOfBounds { op, offset, len, size: dev_size })
            },
        },
{
    if offset > u64::MAX - len {
        return Err(BackendError::Overflow { op, offset, len });
    }
    if offset + len > dev_size {
        return Err(BackendError::OutOfBounds { op, offset, len, size: dev_size });
    }
    Ok(())
}

/// The chunk size that a template copy uses for the setting `setting`.
pub open spec fn copy_chunk(setting: Option<Seq<char>>) -> int {
    match setting {
        Some(s) => match text::number(s, u64::MAX as nat) {
            Some(n) => {
                let m = n as int / 512 * 512;
                if m < 512 {
                    512
                } else if m > MAX_PAGE_REQUEST_BYTES {
                    MAX_PAGE_REQUEST_BYTES as int
                } else {
                    m
                }
            },
            None => MAX_PAGE_REQUEST_BYTES as int,
        },
        None => MAX_PAGE_REQUEST_BYTES as int,
    }
}

/// Per-request chunk size of the template copy paths, in bytes.
///
/// `setting` is the operator's override (`UBLK_COPY_CHUNK_BYTES`), if there is
/// one. The result is a multiple of 512 between 512 and 4 MiB, and 4 MiB where
/// no number is set.
pub fn copy_chunk_bytes(setting: Option<&str>) -> (r: u64)
    ensures
        r == copy_chunk(match setting {
            Some(s) => Some(s@),
            None => None,
        }),
        512 <= r <= MAX_PAGE_REQUEST_BYTES,
        r % 512 == 0,
{
    match setting {
        Some(s) => match text::parse_u64(s) {
            Some(n) => {
                let m: u64 = n / 512 * 512;
                if m < 512 {
                    512
                } else if m > MAX_PAGE_REQUEST_BYTES {
                    MAX_PAGE_REQUEST_BYTES
                } else {
                    m
                }
            },
            None => MAX_PAGE_REQUEST_BYTES,
        },
        None => MAX_PAGE_REQUEST_BYTES,
    }
}

/// `[offset, offset + len)` and one of `ranges` have a byte in common.
pub open spec fn intersects(ranges: Seq<(u64, u64)>, offset: int, len: int) -> bool {
    exists|i: int|
        0 <= i < ranges.len() && (#[trigger] ranges[i]).0 < offset + len && offset < ranges[i].0
            + ranges[i].1 && ranges[i].1 > 0 && len > 0
}

/// Whether `[offset, offset + len)` meets one of `ranges`, given as
/// `(start, length)`.
pub fn range_intersects(ranges: &Vec<(u64, u64)>, offset: u64, len: u64) -> (r: bool)
    ensures
        r == intersects(ranges@, offset as int, len as int),
{
    let mut i: usize = 0;
    while i < ranges.len()
        invariant
            i <= ranges@.len(),
            forall|j: int|
                0 <= j < i ==> !((#[trigger] ranges@[j]).0 < offset + len && offset < ranges@[j].0
                    + ranges@[j].1 && ranges@[j].1 > 0 && len > 0),
        decreases ranges@.len() - i,
    {
        let start: u128 = ranges[i].0 as u128;
        let end: u128 = start + ranges[i].1 as u128;
        let lo: u128 = offset as u128;
        let hi: u128 = lo + len as u128;
        if start < hi && lo < end && start < end && lo < hi {
            assert(ranges@[i as int].1 > 0);
            return true;
        }
        i = i + 1;
    }
    false
}

/// The chunks of `[at, end)` in steps of `step`, the last one cut at `dev_size`.
pub open spec fn chunks(at: int, end: int, step: int, dev_size: int) -> Seq<(u64, u64)>
    decreases dev_size - at,
{
    if 0 <= at < end && step > 0 && at < dev_size {
        let len = if step < dev_size - at {
            step
        } else {
            dev_size - at
        };
        seq![(at as u64, len as u64)] + chunks(at + len, end, step, dev_size)
    } else {
        Seq::empty()
    }
}

/// Where a limit of `limit_bytes` ends on a device of `dev_size` bytes.
pub open spec fn warm_limit(dev_size: int, limit_bytes: int) -> int {
    if limit_bytes < dev_size {
        limit_bytes
    } else {
        dev_size
    }
}

/// The regions that a warm-up fetches, in order: whole pages from offset 0 up
/// to the limit, the last one cut at the end of the device.
pub fn warmup_chunks(dev_size: u64, page_size: u64, limit_bytes: u64) -> (r: Vec<(u64, u64)>)
    requires
        page_size > 0,
    ensures
        r@ == chunks(0, warm_limit(dev_size as int, limit_bytes as int), page_size as int, dev_size as int),
{
    let limit: u64 = if limit_bytes < dev_size {
        limit_bytes
    } else {
        dev_size
    };
    let mut out: Vec<(u64, u64)> = Vec::new();
    let mut at: u64 = 0;
    while at < limit
        invariant
            page_size > 0,
            at <= dev_size,
            limit <= dev_size,
            out@ + chunks(at as int, limit as int, page_size as int, dev_size as int) == chunks(
                0,
                limit as int,
                page_size as int,
                dev_size as int,
            ),
        decreases dev_size - at,
    {
        let len: u64 = if page_size < dev_size - at {
            page_size
        } else {
            dev_size - at
        };
        let ghost before = out@;
        out.push((at, len));
        assert(out@ + chunks(at + len, limit as int, page_size as int, dev_size as int) == before + chunks(
            at as int,
            limit as int,
            page_size as int,
            dev_size as int,
        ));
        at = at + len;
    }
    assert(chunks(at as int, limit as int, page_size as int, dev_size as int) == Seq::<(u64, u64)>::empty());
    out
}

/// Where a warm-up that goes on from `at` ends: at the end of the chunk that reaches
/// the limit.
pub open spec fn warm_end(at: int, limit: int, page_size: int, dev_size: int) -> int
    decreases dev_size - at,
{
    if at >= limit || page_size <= 0 || dev_size <= at {
        at
    } else if page_size < dev_size - at {
        warm_end(at + page_size, limit, page_size, dev_size)
    } else {
        warm_end(dev_size, limit, page_size, dev_size)
    }
}

/// Reads of the chunks `c`, one after the other.
pub open spec fn reads(c: Seq<(u64, u64)>) -> Seq<Request> {
    Seq::new(c.len(), |i: int| Request::Read { offset: c[i].0, len: c[i].1 })
}

/// Warm `[0, limit_bytes)` of `backend` by reading it chunk by chunk, and stop
/// at the first read that fails. Returns the number of bytes warmed, and that
/// failure.
pub fn warmup<B: BlobBackend>(
    backend: &mut B,
    dev_size: u64,
    page_size: u64,
    limit_bytes: u64,
) -> (r: (u64, Option<BackendError>))
    requires
        old(backend).valid(),
        page_size > 0,
    ensures
        final(backend).valid(),
        final(backend).bytes() == old(backend).bytes(),
        final(backend).durable() == old(backend).durable(),
        r.1 is None ==> r.0 == warm_end(
            0,
            warm_limit(dev_size as int, limit_bytes as int),
            page_size as int,
            dev_size as int,
        ),
        r.1 is Some ==> r.0 < warm_limit(dev_size as int, limit_bytes as int) && r.0 % page_size
            == 0,
        ({
            let c = chunks(
                0,
                warm_limit(dev_size as int, limit_bytes as int),
                page_size as int,
                dev_size as int,
            );
            &&& r.1 is None ==> final(backend).requests() == old(backend).requests() + reads(c)
            &&& r.1 is Some ==> r.0 as int / page_size as int + 1 <= c.len()
                && final(backend).requests() == old(backend).requests() + reads(
                c.take(r.0 as int / page_size as int + 1),
            )
        }),
        r.1 is Some && page_size % 512 == 0 && fair_range(
            0,
            dev_size as int,
            old(backend).bytes().len() as int,
        ) ==> final(backend).faults() > old(backend).faults(),
{
    let limit: u64 = if limit_bytes < dev_size {
        limit_bytes
    } else {
        dev_size
    };
    let mut offset: u64 = 0;
    let ghost all = chunks(0, limit as int, page_size as int, dev_size as int);
    let ghost mut done: Seq<(u64, u64)> = Seq::empty();
    proof {
        assert(reads(done) =~= Seq::<Request>::empty());
        assert(done + all =~= all);
        vstd::arithmetic::div_mod::lemma_div_basics(page_size as int);
        vstd::arithmetic::div_mod::lemma_small_mod(0, page_size as nat);
    }
    while offset < limit
        invariant
            all == chunks(0, limit as int, page_size as int, dev_size as int),
            done + chunks(offset as int, limit as int, page_size as int, dev_size as int) == all,
            backend.requests() =~= old(backend).requests() + reads(done),
            offset < dev_size ==> done.len() * page_size == offset,
            page_size > 0,
            offset <= dev_size,
            limit == warm_limit(dev_size as int, limit_bytes as int),
            limit <= dev_size,
            backend.valid(),
            backend.bytes() == old(backend).bytes(),
            backend.durable() == old(backend).durable(),
            backend.faults() >= old(backend).faults(),
            page_size % 512 == 0 && dev_size % 512 == 0 ==> offset % 512 == 0,
            offset < dev_size ==> offset % page_size == 0,
            warm_end(offset as int, limit as int, page_size as int, dev_size as int) == warm_end(
                0,
                limit as int,
                page_size as int,
                dev_size as int,
            ),
        decreases dev_size - offset,
    {
        let len: u64 = if page_size < dev_size - offset {
            page_size
        } else {
            dev_size - offset
        };
        let ghost before = done;
        proof {
            let rest = chunks(offset as int, limit as int, page_size as int, dev_size as int);
            done = done.push((offset, len));
            assert(rest == seq![(offset, len)] + chunks(
                offset + len,
                limit as int,
                page_size as int,
                dev_size as int,
            ));
            assert(before + rest =~= done + chunks(
                offset + len,
                limit as int,
                page_size as int,
                dev_size as int,
            ));
            assert(all.take(done.len() as int) =~= done);
            assert(reads(done) =~= reads(before).push(Request::Read { offset, len }));
            vstd::arithmetic::div_mod::lemma_div_by_multiple(before.len() as int, page_size as int);
            assert(done.len() * page_size == before.len() * page_size + page_size)
                by (nonlinear_arith)
                requires
                    done.len() == before.len() + 1,
            ;
        }
        match backend.read(offset, len) {
            Ok(_) => {},
            Err(e) => {
                return (offset, Some(e));
            },
        }
        proof {
            vstd::arithmetic::div_mod::lemma_mod_add_multiples_vanish(
                offset as int,
                page_size as int,
            );
        }
        offset = offset + len;
    }
    assert(chunks(offset as int, limit as int, page_size as int, dev_size as int) =~= Seq::<
        (u64, u64),
    >::empty());
    assert(done =~= all);
    (offset, None)
}

/// A write keeps a store's length; writing nothing changes nothing, and of two
/// writes at one place the second counts.
pub proof fn a_write_keeps_the_length(s: Seq<u8>, at: int, d: Seq<u8>, e: Seq<u8>)
    ensures
        splice(s, at, d).len() == s.len(),
        splice(s, at, Seq::empty()) == s,
        d.len() == e.len() ==> splice(splice(s, at, d), at, e) == splice(s, at, e),
{
    assert(splice(s, at, Seq::empty()) =~= s);
    if d.len() == e.len() {
        assert(splice(splice(s, at, d), at, e) =~= splice(s, at, e));
    }
}

/// The chunk of a copy: as set, in whole 512-byte blocks, at least one and at most
/// four mebibytes; four mebibytes where nothing is set.
pub proof fn a_copy_chunk_is_as_set(n: u64)
    ensures
        copy_chunk(None) == 4194304,
        512 <= n <= 4194304 && n % 512 == 0 ==> copy_chunk(Some(text::decimal(n as nat))) == n,
        512 <= n <= 4194304 ==> copy_chunk(Some(text::decimal(n as nat))) <= n
            < copy_chunk(Some(text::decimal(n as nat))) + 512,
        n < 512 ==> copy_chunk(Some(text::decimal(n as nat))) == 512,
        n > 4194304 ==> copy_chunk(Some(text::decimal(n as nat))) == 4194304,
        copy_chunk(Some(text::decimal(n as nat))) % 512 == 0,
        forall|s: Seq<char>| #[trigger]
            text::number(s, u64::MAX as nat) is None ==> copy_chunk(Some(s)) == 4194304,
{
    text::number_reads_decimal(n as nat, u64::MAX as nat);
}

/// A range meets a list of ranges exactly when some byte is in both.
pub proof fn ranges_meet_in_a_byte(ranges: Seq<(u64, u64)>, offset: int, len: int)
    ensures
        intersects(ranges, offset, len) <==> exists|k: int, b: int|
            #![trigger ranges[k], b - offset]
            0 <= k < ranges.len() && ranges[k].0 <= b < ranges[k].0 + ranges[k].1 && 0 <= b - offset
                < len,
{
    if intersects(ranges, offset, len) {
        let k = choose|i: int|
            0 <= i < ranges.len() && (#[trigger] ranges[i]).0 < offset + len && offset < ranges[i].0
                + ranges[i].1 && ranges[i].1 > 0 && len > 0;
        let b = if ranges[k].0 < offset {
            offset
        } else {
            ranges[k].0 as int
        };
        assert(0 <= b - offset < len);
        assert(ranges[k].0 <= b < ranges[k].0 + ranges[k].1);
    }
    if exists|k: int, b: int|
        #![trigger ranges[k], b - offset]
        0 <= k < ranges.len() && ranges[k].0 <= b < ranges[k].0 + ranges[k].1 && 0 <= b - offset
            < len {
        let (k, b) = choose|k: int, b: int|
            #![trigger ranges[k], b - offset]
            0 <= k < ranges.len() && ranges[k].0 <= b < ranges[k].0 + ranges[k].1 && 0 <= b - offset
                < len;
        assert(ranges[k].0 < offset + len && offset < ranges[k].0 + ranges[k].1);
    }
}

/// The chunks of a warm-up lie end to end from where it begins; each is a page, or
/// what is left of the device; and it goes on exactly as long as it is below the
/// limit.
pub proof fn the_chunks_of_a_warm_up_lie_end_to_end(at: int, end: int, step: int, dev_size: int)
    requires
        0 <= at <= dev_size <= u64::MAX,
        end <= dev_size,
        0 < step,
    ensures
        at >= end ==> chunks(at, end, step, dev_size) == Seq::<(u64, u64)>::empty(),
        at < end ==> chunks(at, end, step, dev_size).len() > 0 && chunks(at, end, step, dev_size)[0].0
            == at,
        forall|k: int|
            0 <= k < chunks(at, end, step, dev_size).len() ==> (#[trigger] chunks(
                at,
                end,
                step,
                dev_size,
            )[k]).0 < end && chunks(at, end, step, dev_size)[k].1 == (if step < dev_size
                - chunks(at, end, step, dev_size)[k].0 {
                step
            } else {
                dev_size - chunks(at, end, step, dev_size)[k].0
            }),
        forall|k: int, l: int|
            0 <= k && l == k + 1 && l < chunks(at, end, step, dev_size).len() ==> (#[trigger] chunks(
                at,
                end,
                step,
                dev_size,
            )[l]).0 == (#[trigger] chunks(at, end, step, dev_size)[k]).0 + chunks(
                at,
                end,
                step,
                dev_size,
            )[k].1,
        at < end ==> chunks(at, end, step, dev_size).last().0 + chunks(
            at,
            end,
            step,
            dev_size,
        ).last().1 == warm_end(at, end, step, dev_size),
        at < end ==> warm_end(at, end, step, dev_size) >= end,
    decreases dev_size - at,
{
    if at < end {
        let len = if step < dev_size - at {
            step
        } else {
            dev_size - at
        };
        the_chunks_of_a_warm_up_lie_end_to_end(at + len, end, step, dev_size);
        let all = chunks(at, end, step, dev_size);
        let rest = chunks(at + len, end, step, dev_size);
        assert(all == seq![(at as u64, len as u64)] + rest);
        assert forall|k: int| 1 <= k < all.len() implies #[trigger] all[k] == rest[k - 1] by {}
        assert(warm_end(at, end, step, dev_size) == warm_end(at + len, end, step, dev_size));
        if at + len < end {
            assert(all.last() == rest.last());
        } else {
            assert(warm_end(at + len, end, step, dev_size) == at + len);
            assert(all.last() == all[0]);
        }
    }
}

/// A warm-up ends at its limit or at the end of the device, whichever comes first.
pub proof fn a_warm_up_stays_on_the_device(dev_size: int, limit_bytes: int)
    ensures
        warm_limit(dev_size, limit_bytes) <= dev_size,
        warm_limit(dev_size, limit_bytes) <= limit_bytes,
        warm_limit(dev_size, limit_bytes) == dev_size || warm_limit(dev_size, limit_bytes)
            == limit_bytes,
{
}

/// A smoke test creates the store, writes a sector, reads it, clears it and reads it
/// again.
pub proof fn a_smoke_test_writes_reads_and_clears(size: u64)
    ensures
        smoke_requests(size).len() == 5,
        smoke_requests(size)[0] == (Request::Create { size }),
        smoke_requests(size)[1] matches Request::Write { offset, data } && offset == 0 && data.len()
            == 512 && forall|i: int| 0 <= i < 512 ==> #[trigger] data[i] == 171,
        smoke_requests(size)[2] == (Request::Read { offset: 0, len: 512 }),
        smoke_requests(size)[3] == (Request::Clear { offset: 0, len: 512 }),
        smoke_requests(size)[4] == (Request::Read { offset: 0, len: 512 }),
{
}

} // verus!

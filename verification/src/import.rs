//! Import of an archive into the backing blob.
//!
//! The blob is treated as a flat byte image: the archive is padded up to a
//! 512-byte boundary (the page-blob alignment) and written in aligned chunks.

use vstd::prelude::*;

use crate::backend;
use crate::backend::{BackendError, BlobBackend, Request};

verus! {

/// Block alignment of page blobs.
pub const BLOCK: u64 = 512;

/// Size of each aligned upload chunk (4 MiB; a multiple of [`BLOCK`]).
pub const CHUNK: u64 = 4194304;

/// `n` rounded up to a multiple of `align`.
pub open spec fn rounded_up(n: int, align: int) -> int {
    (n + align - 1) / align * align
}

/// Round `n` up to the next multiple of `align`.
pub fn round_up(n: u64, align: u64) -> (r: u64)
    requires
        align > 0,
        rounded_up(n as int, align as int) <= u64::MAX,
    ensures
        r == rounded_up(n as int, align as int),
        r >= n,
        r % align == 0,
        r - n < align,
{
    proof {
        lemma_rounded_up(n as int, align as int);
    }
    let q: u64 = n / align;
    let rem: u64 = n % align;
    proof {
        vstd::arithmetic::div_mod::lemma_fundamental_div_mod(n as int, align as int);
        assert(q * align == align * q) by (nonlinear_arith);
        if rem > 0 {
            assert((q + 1) * align == q * align + align) by (nonlinear_arith);
            vstd::arithmetic::div_mod::lemma_fundamental_div_mod_converse(
                n + align - 1,
                align as int,
                q + 1,
                rem - 1,
            );
        } else {
            vstd::arithmetic::div_mod::lemma_fundamental_div_mod_converse(
                n + align - 1,
                align as int,
                q as int,
                align - 1,
            );
        }
    }
    if rem == 0 {
        n
    } else {
        n - rem + align
    }
}

/// Rounding up reaches the next multiple and no further.
pub proof fn lemma_rounded_up(n: int, align: int)
    requires
        0 <= n,
        0 < align,
    ensures
        n <= rounded_up(n, align) < n + align,
        rounded_up(n, align) % align == 0,
{
    let m = n + align - 1;
    vstd::arithmetic::div_mod::lemma_fundamental_div_mod(m, align);
    vstd::arithmetic::div_mod::lemma_mod_bound(m, align);
    assert(m / align * align == align * (m / align)) by (nonlinear_arith);
    vstd::arithmetic::div_mod::lemma_mod_multiples_basic(m / align, align);
}

/// Why an archive is not imported.
#[derive(Debug)]
pub enum ImportError {
    /// The requested size is no multiple of 512.
    Misaligned { size: u64 },
    /// The requested size does not hold the archive.
    TooSmall { size: u64, needed: u64 },
    /// The store failed in a step.
    Create(BackendError),
    Write(BackendError),
    Flush(BackendError),
    Snapshot(BackendError),
}

/// The bytes that an archive of `len` bytes needs: whole blocks, and at least one.
pub open spec fn needed_bytes(len: int) -> int {
    if len == 0 {
        512
    } else {
        rounded_up(len, 512)
    }
}

/// The size of the blob for an archive of `len` bytes: the requested one, if it is
/// aligned and large enough, and otherwise what the archive needs.
pub open spec fn sized(len: int, size: Option<u64>) -> Result<u64, ImportError> {
    let needed = needed_bytes(len) as u64;
    match size {
        None => Ok(needed),
        Some(s) => if s % 512 != 0 {
            Err(ImportError::Misaligned { size: s })
        } else if s < needed {
            Err(ImportError::TooSmall { size: s, needed })
        } else {
            Ok(s)
        },
    }
}

/// The size of the blob for an archive of `tar_len` bytes.
pub fn image_size(tar_len: u64, size: Option<u64>) -> (r: Result<u64, ImportError>)
    requires
        needed_bytes(tar_len as int) <= u64::MAX,
    ensures
        r == sized(tar_len as int, size),
{
    let needed: u64 = if tar_len == 0 {
        512
    } else {
        round_up(tar_len, BLOCK)
    };
    match size {
        None => Ok(needed),
        Some(s) => {
            if s % BLOCK != 0 {
                return Err(ImportError::Misaligned { size: s });
            }
            if s < needed {
                return Err(ImportError::TooSmall { size: s, needed });
            }
            Ok(s)
        },
    }
}

/// An archive padded with zeros to whole blocks.
pub open spec fn padded(tar: Seq<u8>) -> Seq<u8> {
    tar + backend::zeros((rounded_up(tar.len() as int, 512) - tar.len()) as nat)
}

/// The writes that carry `image` from byte `at` on, chunk by chunk.
pub open spec fn image_writes(image: Seq<u8>, at: int) -> Seq<Request>
    decreases image.len() - at,
{
    if at < 0 || at >= image.len() {
        Seq::empty()
    } else {
        let len = if image.len() - at > CHUNK {
            CHUNK as int
        } else {
            image.len() - at
        };
        seq![Request::Write { offset: at as u64, data: image.subrange(at, at + len) }]
            + image_writes(image, at + len)
    }
}

/// What an import of `tar` into a blob of `size` bytes asks of the store, up to the
/// snapshot.
pub open spec fn import_requests(tar: Seq<u8>, size: u64) -> Seq<Request> {
    seq![Request::Create { size }] + image_writes(padded(tar), 0) + seq![Request::Flush]
}

/// Import an archive into a store.
///
/// The store is created with [`image_size`], the archive is written to it from
/// the start, padded with zeros to whole blocks, and flushed; with `snapshot`, a
/// snapshot is taken and its identifier returned.
pub fn import_image<B: BlobBackend>(
    store: &mut B,
    tar: Vec<u8>,
    size: Option<u64>,
    snapshot: bool,
) -> (r: Result<Option<String>, ImportError>)
    requires
        old(store).valid(),
        needed_bytes(tar@.len() as int) <= usize::MAX,
    ensures
        sized(tar@.len() as int, size) matches Err(e) ==> r == Err::<Option<String>, _>(e)
            && *final(store) == *old(store),
        sized(tar@.len() as int, size) is Ok ==> (r matches Err(e) ==> !(e is Misaligned)
            && !(e is TooSmall)),
        r matches Ok(id) ==> {
            let image = padded(tar@);
            &&& final(store).valid()
            &&& sized(tar@.len() as int, size) == Ok::<u64, ImportError>(
                final(store).bytes().len() as u64,
            )
            &&& image.len() <= final(store).bytes().len() <= u64::MAX
            &&& final(store).bytes().take(image.len() as int) == image
            &&& id is Some == snapshot
            &&& final(store).durable() == final(store).bytes()
        },
        r is Err && (sized(tar@.len() as int, size) matches Ok(n) && n <= usize::MAX) ==> {
            ||| final(store).faults() > old(store).faults()
            ||| snapshot && r->Err_0 is Snapshot
        },
        r matches Err(ImportError::Snapshot(_)) ==> final(store).durable() == final(store).bytes(),
        ({
            let asked = old(store).requests() + import_requests(
                tar@,
                sized(tar@.len() as int, size)->Ok_0,
            );
            &&& r matches Ok(None) ==> final(store).requests() == asked
            &&& r matches Ok(Some(id)) ==> final(store).requests() == asked.push(
                (Request::Snapshot { id: Some(id@) }),
            )
            &&& r matches Err(ImportError::Snapshot(_)) ==> final(store).requests() == asked.push(
                (Request::Snapshot { id: None }),
            )
        }),
{
    let ghost archive = tar@;
    proof {
        lemma_rounded_up(tar@.len() as int, 512);
    }
    let dev_size: u64 = match image_size(tar.len() as u64, size) {
        Ok(n) => n,
        Err(e) => {
            return Err(e);
        },
    };
    match store.create(dev_size) {
        Ok(()) => {},
        Err(e) => {
            return Err(ImportError::Create(e));
        },
    }
    let mut buf = tar;
    let padded_len: u64 = round_up(buf.len() as u64, BLOCK);
    while (buf.len() as u64) < padded_len
        invariant
            archive.len() <= buf@.len() <= padded_len,
            buf@ == archive + backend::zeros((buf@.len() - archive.len()) as nat),
        decreases padded_len - buf@.len(),
    {
        buf.push(0);
        assert(buf@ =~= archive + backend::zeros((buf@.len() - archive.len()) as nat));
    }
    assert(buf@ =~= padded(archive));
    let n: usize = buf.len();
    let mut at: usize = 0;
    assert(store.bytes().take(0) =~= buf@.take(0));
    let ghost asked = old(store).requests() + seq![Request::Create { size: dev_size }];
    assert(store.requests() =~= asked);
    while at < n
        invariant
            sized(archive.len() as int, size) == Ok::<u64, ImportError>(dev_size),
            archive == tar@,
            n == buf@.len(),
            at <= n,
            n <= dev_size,
            store.valid(),
            store.bytes().len() == dev_size,
            store.bytes().take(at as int) == buf@.take(at as int),
            store.faults() >= old(store).faults(),
            at % 512 == 0,
            n % 512 == 0,
            dev_size % 512 == 0,
            asked == old(store).requests() + seq![Request::Create { size: dev_size }],
            store.requests() + image_writes(buf@, at as int) == asked + image_writes(buf@, 0),
        decreases n - at,
    {
        let left: usize = n - at;
        let len: usize = if left as u64 > CHUNK {
            CHUNK as usize
        } else {
            left
        };
        let mut chunk: Vec<u8> = Vec::new();
        let mut i: usize = 0;
        while i < len
            invariant
                i <= len,
                at + len <= buf@.len() <= usize::MAX,
                chunk@ == buf@.subrange(at as int, at + i),
            decreases len - i,
        {
            chunk.push(buf[at + i]);
            assert(chunk@ =~= buf@.subrange(at as int, at + i + 1));
            i = i + 1;
        }
        let ghost before = store.bytes();
        let ghost so_far = store.requests();
        match store.write(at as u64, &chunk) {
            Ok(()) => {},
            Err(e) => {
                return Err(ImportError::Write(e));
            },
        }
        proof {
            let s = store.bytes().take(at + len);
            let b = buf@.take(at + len);
            assert forall|k: int| 0 <= k < at + len implies #[trigger] s[k] == b[k] by {
                if k < at {
                    assert(before.take(at as int)[k] == buf@.take(at as int)[k]);
                }
            }
            assert(s =~= b);
            assert(store.requests() + image_writes(buf@, at + len) =~= so_far + image_writes(
                buf@,
                at as int,
            ));
        }
        at = at + len;
    }
    assert(buf@.take(n as int) =~= buf@);
    assert(image_writes(buf@, n as int) =~= Seq::<Request>::empty());
    assert(store.requests() =~= asked + image_writes(buf@, 0));
    match store.flush() {
        Ok(()) => {},
        Err(e) => {
            return Err(ImportError::Flush(e));
        },
    }
    assert(store.requests() =~= old(store).requests() + import_requests(archive, dev_size));
    if snapshot {
        match store.snapshot() {
            Ok(id) => Ok(Some(id)),
            Err(e) => Err(ImportError::Snapshot(e)),
        }
    } else {
        Ok(None)
    }
}

/// An archive needs whole blocks of 512 bytes, the fewest that hold it, and at
/// least one.
pub proof fn an_archive_needs_whole_blocks(len: int)
    requires
        len >= 0,
    ensures
        needed_bytes(len) % 512 == 0,
        needed_bytes(len) >= 512,
        needed_bytes(len) >= len,
        len > 0 ==> needed_bytes(len) < len + 512,
        len == 0 ==> needed_bytes(len) == 512,
{
}

/// The size of an image: the requested one where it is in whole blocks and holds
/// the archive; without a request, what the archive needs.
pub proof fn an_image_is_as_large_as_asked(len: int, size: Option<u64>)
    requires
        len >= 0,
        needed_bytes(len) <= u64::MAX,
    ensures
        size is None ==> sized(len, size) == Ok::<u64, ImportError>(needed_bytes(len) as u64),
        size matches Some(s) ==> (sized(len, size) is Ok <==> s % 512 == 0 && s >= len && s >= 512),
        size matches Some(s) ==> sized(len, size) is Ok ==> sized(len, size) == Ok::<
            u64,
            ImportError,
        >(s),
        size matches Some(s) ==> s % 512 != 0 ==> sized(len, size) == Err::<u64, _>(
            ImportError::Misaligned { size: s },
        ),
        sized(len, size) matches Ok(n) ==> n >= len && n % 512 == 0 && n >= 512,
{
}

/// Padding keeps the archive and adds fewer than 512 zeros behind it, to whole
/// blocks.
pub proof fn padding_adds_zeros_behind(tar: Seq<u8>)
    ensures
        padded(tar).len() % 512 == 0,
        tar.len() <= padded(tar).len() < tar.len() + 512,
        padded(tar).take(tar.len() as int) == tar,
        forall|i: int| tar.len() <= i < padded(tar).len() ==> #[trigger] padded(tar)[i] == 0,
        tar.len() % 512 == 0 ==> padded(tar) == tar,
{
    lemma_rounded_up(tar.len() as int, 512);
    assert(padded(tar).take(tar.len() as int) =~= tar);
    if tar.len() % 512 == 0 {
        assert(padded(tar) =~= tar);
    }
}

/// The bytes that a list of writes carries, one after the other.
pub open spec fn carried(requests: Seq<Request>) -> Seq<u8>
    decreases requests.len(),
{
    if requests.len() == 0 {
        Seq::empty()
    } else {
        (match requests[0] {
            Request::Write { data, .. } => data,
            _ => Seq::empty(),
        }) + carried(requests.skip(1))
    }
}

/// The writes of an image carry the image from where they begin, in order and end
/// to end, in pieces of at most four mebibytes.
pub proof fn the_writes_of_an_image_carry_it(image: Seq<u8>, at: int)
    requires
        0 <= at <= image.len(),
        image.len() <= u64::MAX,
    ensures
        carried(image_writes(image, at)) == image.skip(at),
        at < image.len() ==> image_writes(image, at).len() > 0,
        at < image.len() ==> (image_writes(image, at)[0] matches Request::Write { offset, data }
            && offset == at && data.len() == (if image.len() - at > 4194304 {
            4194304int
        } else {
            image.len() - at
        })),
        forall|k: int|
            0 <= k < image_writes(image, at).len() ==> (#[trigger] image_writes(image, at)[k]
                matches Request::Write { offset, data } && 0 < data.len() <= 4194304 && data
                == image.subrange(offset as int, offset + data.len())),
    decreases image.len() - at,
{
    let all = image_writes(image, at);
    if at < image.len() {
        let len = if image.len() - at > CHUNK {
            CHUNK as int
        } else {
            image.len() - at
        };
        the_writes_of_an_image_carry_it(image, at + len);
        let rest = image_writes(image, at + len);
        assert(all.skip(1) =~= rest);
        assert(carried(all) =~= image.subrange(at, at + len) + carried(rest));
        assert(image.skip(at) =~= image.subrange(at, at + len) + image.skip(at + len));
        assert forall|k: int| 0 <= k < all.len() implies (#[trigger] all[k]
            matches Request::Write { offset, data } && 0 < data.len() <= 4194304 && data
            == image.subrange(offset as int, offset + data.len())) by {
            if k > 0 {
                assert(all[k] == rest[k - 1]);
            }
        }
    } else {
        assert(image.skip(at) =~= Seq::<u8>::empty());
    }
}

/// An import creates the blob first, flushes it last, and in between writes.
pub proof fn an_import_creates_then_writes_then_flushes(tar: Seq<u8>, size: u64)
    ensures
        import_requests(tar, size).len() >= 2,
        import_requests(tar, size)[0] == (Request::Create { size }),
        import_requests(tar, size).last() == Request::Flush,
        import_requests(tar, size).subrange(1, import_requests(tar, size).len() - 1) == image_writes(
            padded(tar),
            0,
        ),
{
    let all = import_requests(tar, size);
    assert(all.subrange(1, all.len() - 1) =~= image_writes(padded(tar), 0));
}

} // verus!

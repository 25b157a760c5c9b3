//! ublk target: the rules of the userspace block device.
//!
//! Each request that the kernel hands over is dispatched to the matching
//! [`BlobBackend`] method. The caller drives the kernel interface and moves bytes
//! between its buffers and [`handle_io`].

use vstd::prelude::*;

use crate::backend;
use crate::backend::{BackendError, BlobBackend};

verus! {

/// Configuration of the ublk device.
#[derive(Debug, Clone, Copy, PartialEq, Eq, Structural)]
pub struct UblkConfig {
    /// Logical block size in bytes (must be a multiple of 512).
    pub block_size: u32,
    /// Total device size in bytes (must be a multiple of `block_size`).
    pub dev_size: u64,
    /// Number of io_uring queues.
    pub nr_queues: u16,
    /// Queue depth (number of concurrent in-flight I/O operations per queue).
    pub queue_depth: u16,
    /// Device id to request (`-1` lets the kernel auto-allocate).
    pub id: i32,
}

impl Default for UblkConfig {
    fn default() -> (r: Self)
        ensures
            r.block_size == 512,
            r.dev_size == 0,
            r.nr_queues == 1,
            r.queue_depth == 64,
            r.id == -1,
    {
        UblkConfig { block_size: 512, dev_size: 0, nr_queues: 1, queue_depth: 64, id: -1 }
    }
}

/// The operations of a ublk request.
pub const UBLK_IO_OP_READ: u32 = 0;

pub const UBLK_IO_OP_WRITE: u32 = 1;

pub const UBLK_IO_OP_FLUSH: u32 = 2;

pub const UBLK_IO_OP_DISCARD: u32 = 3;

pub const UBLK_IO_OP_WRITE_ZEROES: u32 = 5;

/// Error numbers, as they are returned to the kernel.
pub const EIO: i32 = 5;

pub const EINVAL: i32 = 22;

/// A request of the kernel.
#[derive(Debug, Clone, Copy, PartialEq, Eq, Structural)]
pub struct IoDesc {
    /// The operation in the low eight bits, flags above.
    pub op_flags: u32,
    /// The first 512-byte sector.
    pub start_sector: u64,
    /// The number of sectors.
    pub nr_sectors: u32,
}

/// A request that the device can serve: its range fits in 64 bits and its length
/// in a result.
pub open spec fn io_valid(d: IoDesc) -> bool {
    &&& d.start_sector * 512 <= u64::MAX
    &&& d.nr_sectors * 512 <= i32::MAX
}

/// The operation of a request.
pub open spec fn io_op(d: IoDesc) -> int {
    d.op_flags as int % 256
}

/// The result of a request, and what it leaves in the buffer.
#[derive(Debug)]
pub struct IoResult {
    /// Bytes transferred, 0, or a negative error number.
    pub res: i32,
    /// For a read that worked, the bytes for the kernel's buffer.
    pub data: Vec<u8>,
}

/// The operations that change bytes.
pub open spec fn changes(op: int) -> bool {
    op == UBLK_IO_OP_WRITE || op == UBLK_IO_OP_DISCARD || op == UBLK_IO_OP_WRITE_ZEROES
}

/// What serving a kernel request does to the bytes of the store, and its result.
/// Which of the outcomes is taken is up to the store.
pub open spec fn io_served(
    d: IoDesc,
    buffer: Seq<u8>,
    before: Seq<u8>,
    after: Seq<u8>,
    res: i32,
    data: Seq<u8>,
) -> bool {
    let off = d.start_sector * 512;
    let len = d.nr_sectors * 512;
    let op = io_op(d);
    if op == UBLK_IO_OP_READ {
        &&& after == before
        &&& {
            ||| res == -EIO && data.len() == 0
            ||| res == len && exists|got: Seq<u8>|
                #[trigger] fitted(got, len as nat) == data && gave(before, off, len, got)
        }
    } else if op == UBLK_IO_OP_WRITE {
        let done = backend::splice(before, off, buffer);
        &&& data.len() == 0
        &&& {
            ||| res == len && after == done
            ||| res == -EIO && backend::torn(after, before, done)
        }
    } else if op == UBLK_IO_OP_FLUSH {
        after == before && data.len() == 0 && (res == 0 || res == -EIO)
    } else if op == UBLK_IO_OP_DISCARD || op == UBLK_IO_OP_WRITE_ZEROES {
        let done = backend::splice(before, off, backend::zeros(len as nat));
        &&& data.len() == 0
        &&& {
            ||| res == 0 && after == done
            ||| res == -EIO && backend::torn(after, before, done)
        }
    } else {
        after == before && data.len() == 0 && res == -EINVAL
    }
}

/// `got` cut or filled up with zeros to `len` bytes.
pub open spec fn fitted(got: Seq<u8>, len: nat) -> Seq<u8> {
    Seq::new(
        len,
        |i: int|
            if i < got.len() {
                got[i]
            } else {
                0
            },
    )
}

/// A store with the bytes `s` may give `got` for a read of `len` bytes at `off`:
/// if it gives as many as were asked for, they are the right ones.
pub open spec fn gave(s: Seq<u8>, off: int, len: int, got: Seq<u8>) -> bool {
    got.len() == len > 0 ==> off + len <= s.len() && got == s.subrange(off, off + len)
}

/// The result of a read of `len` bytes, from what the store gave: exactly as many
/// bytes as were asked for, with zeros for those that the store left out.
pub fn read_result(len: u64, got: Result<Vec<u8>, BackendError>) -> (r: IoResult)
    requires
        len <= i32::MAX,
    ensures
        match got {
            Ok(data) => r.res == len && r.data@ == fitted(data@, len as nat),
            Err(_) => r.res == -EIO && r.data@.len() == 0,
        },
{
    match got {
        Ok(given) => {
            let mut data = given;
            let ghost had = data@;
            if data.len() as u64 > len {
                data.truncate(len as usize);
            }
            while (data.len() as u64) < len
                invariant
                    data@.len() <= len,
                    had.len() <= len ==> data@.len() >= had.len(),
                    had.len() > len ==> data@.len() == len,
                    forall|i: int|
                        0 <= i < data@.len() ==> #[trigger] data@[i] == fitted(had, len as nat)[i],
                decreases len - data@.len(),
            {
                data.push(0);
            }
            assert(fitted(had, len as nat) =~= data@);
            IoResult { res: len as i32, data }
        },
        Err(_) => IoResult { res: -EIO, data: Vec::new() },
    }
}

/// The result of any other request, from how it went: `transferred` bytes, or an
/// I/O error.
pub fn change_result(transferred: u64, done: Result<(), BackendError>) -> (r: IoResult)
    requires
        transferred <= i32::MAX,
    ensures
        r.data@.len() == 0,
        r.res == (if done is Ok {
            transferred as int
        } else {
            -EIO
        }),
{
    match done {
        Ok(()) => IoResult { res: transferred as i32, data: Vec::new() },
        Err(_) => IoResult { res: -EIO, data: Vec::new() },
    }
}

/// What a kernel request asks of the store, if anything.
pub open spec fn io_request(d: IoDesc, buffer: Seq<u8>) -> Option<backend::Request> {
    let offset = (d.start_sector * 512) as u64;
    let len = (d.nr_sectors * 512) as u64;
    let op = io_op(d);
    if op == UBLK_IO_OP_READ {
        Some(backend::Request::Read { offset, len })
    } else if op == UBLK_IO_OP_WRITE {
        Some(backend::Request::Write { offset, data: buffer })
    } else if op == UBLK_IO_OP_FLUSH {
        Some(backend::Request::Flush)
    } else if op == UBLK_IO_OP_DISCARD || op == UBLK_IO_OP_WRITE_ZEROES {
        Some(backend::Request::Clear { offset, len })
    } else {
        None
    }
}

/// Serve one request of the kernel. `buffer` holds the bytes of a write.
///
/// A read hands out exactly as many bytes as were asked for; should the store
/// give fewer, the rest is zero.
pub fn handle_io<B: BlobBackend>(store: &mut B, d: &IoDesc, buffer: &Vec<u8>) -> (r: IoResult)
    requires
        old(store).valid(),
        io_valid(*d),
        io_op(*d) == UBLK_IO_OP_WRITE ==> buffer@.len() == d.nr_sectors * 512,
    ensures
        final(store).valid(),
        io_served(*d, buffer@, old(store).bytes(), final(store).bytes(), r.res, r.data@),
        io_op(*d) == UBLK_IO_OP_FLUSH && r.res == 0 ==> final(store).durable() == final(store).bytes(),
        io_op(*d) == UBLK_IO_OP_READ && d.nr_sectors > 0 && backend::fair_range(
            d.start_sector * 512,
            d.nr_sectors * 512,
            old(store).bytes().len() as int,
        ) ==> final(store).faults() > old(store).faults() || r.res == d.nr_sectors * 512 && r.data@
            == old(store).bytes().subrange(
            d.start_sector * 512,
            d.start_sector * 512 + d.nr_sectors * 512,
        ),
        io_op(*d) == UBLK_IO_OP_FLUSH && r.res != 0 && old(store).bytes().len() % 512 == 0
            ==> final(store).faults() > old(store).faults(),
        changes(io_op(*d)) && r.res == -EIO && backend::fair_range(
            d.start_sector * 512,
            d.nr_sectors * 512,
            old(store).bytes().len() as int,
        ) ==> final(store).faults() > old(store).faults(),
        !(io_op(*d) == UBLK_IO_OP_READ || io_op(*d) == UBLK_IO_OP_FLUSH || changes(io_op(*d)))
            ==> *final(store) == *old(store),
        io_request(*d, buffer@) matches Some(q) ==> final(store).requests()
            == old(store).requests().push(q),
{
    let op: u32 = d.op_flags % 256;
    let off: u64 = d.start_sector * 512;
    let len: u64 = d.nr_sectors as u64 * 512;
    if op == UBLK_IO_OP_READ {
        let got = store.read(off, len);
        proof {
            if let Ok(data) = &got {
                assert(gave(old(store).bytes(), d.start_sector * 512, d.nr_sectors * 512, data@));
                assert(fitted(data@, len as nat) == fitted(data@, (d.nr_sectors * 512) as nat));
                if data@.len() == len && len > 0 {
                    a_full_read_is_exact(old(store).bytes(), off as int, len as int, data@);
                }
            }
        }
        read_result(len, got)
    } else if op == UBLK_IO_OP_WRITE {
        change_result(len, store.write(off, buffer))
    } else if op == UBLK_IO_OP_FLUSH {
        change_result(0, store.flush())
    } else if op == UBLK_IO_OP_DISCARD || op == UBLK_IO_OP_WRITE_ZEROES {
        change_result(0, store.clear(off, len))
    } else {
        IoResult { res: -EINVAL, data: Vec::new() }
    }
}

/// A read that transferred as many bytes as the store gave handed out the store's
/// bytes.
pub proof fn a_full_read_is_exact(s: Seq<u8>, off: int, len: int, got: Seq<u8>)
    requires
        gave(s, off, len, got),
        got.len() == len,
        len > 0,
    ensures
        fitted(got, len as nat) == s.subrange(off, off + len),
{
    assert(fitted(got, len as nat) =~= got);
}

/// The operation of a request is in its low eight bits: flags above do not matter.
pub proof fn flags_do_not_change_the_operation(d: IoDesc, flags: u32)
    requires
        d.op_flags < 256,
        flags % 256 == 0,
        d.op_flags + flags <= u32::MAX,
    ensures
        io_op(d) == d.op_flags,
        io_op(IoDesc { op_flags: (d.op_flags + flags) as u32, ..d }) == io_op(d),
{
}

/// A read changes nothing; when it works it gives as many bytes as were asked for.
pub proof fn a_read_of_the_kernel_gives_all_its_bytes(
    d: IoDesc,
    buffer: Seq<u8>,
    before: Seq<u8>,
    after: Seq<u8>,
    res: i32,
    data: Seq<u8>,
)
    requires
        io_valid(d),
        d.op_flags % 256 == 0,
        io_served(d, buffer, before, after, res, data),
    ensures
        after == before,
        res >= 0 ==> res == d.nr_sectors * 512 && data.len() == d.nr_sectors * 512,
        res < 0 ==> res == -5 && data.len() == 0,
{
}

/// A write that works puts the kernel's bytes at its sectors and leaves the other
/// bytes alone.
pub proof fn a_write_of_the_kernel_changes_its_sectors(
    d: IoDesc,
    buffer: Seq<u8>,
    before: Seq<u8>,
    after: Seq<u8>,
    res: i32,
    data: Seq<u8>,
    i: int,
)
    requires
        io_valid(d),
        d.op_flags % 256 == 1,
        buffer.len() == d.nr_sectors * 512,
        d.start_sector * 512 + d.nr_sectors * 512 <= before.len(),
        io_served(d, buffer, before, after, res, data),
        0 <= i < before.len(),
    ensures
        after.len() == before.len(),
        res >= 0 ==> res == d.nr_sectors * 512,
        res < 0 ==> res == -5,
        res >= 0 && d.start_sector * 512 <= i < d.start_sector * 512 + d.nr_sectors * 512 ==> after[i]
            == buffer[i - d.start_sector * 512],
        !(d.start_sector * 512 <= i < d.start_sector * 512 + d.nr_sectors * 512) ==> after[i]
            == before[i],
{
}

/// A discard and a write of zeros, when they work, leave zeros at their sectors and
/// the other bytes alone.
pub proof fn a_discard_of_the_kernel_zeroes_its_sectors(
    d: IoDesc,
    buffer: Seq<u8>,
    before: Seq<u8>,
    after: Seq<u8>,
    res: i32,
    data: Seq<u8>,
    i: int,
)
    requires
        io_valid(d),
        d.op_flags % 256 == 3 || d.op_flags % 256 == 5,
        d.start_sector * 512 + d.nr_sectors * 512 <= before.len(),
        io_served(d, buffer, before, after, res, data),
        0 <= i < before.len(),
    ensures
        after.len() == before.len(),
        res == 0 || res == -5,
        res == 0 && d.start_sector * 512 <= i < d.start_sector * 512 + d.nr_sectors * 512 ==> after[i]
            == 0,
        !(d.start_sector * 512 <= i < d.start_sector * 512 + d.nr_sectors * 512) ==> after[i]
            == before[i],
{
}

/// A flush changes no bytes; an operation that there is not is refused and changes
/// nothing.
pub proof fn other_requests_of_the_kernel_change_nothing(
    d: IoDesc,
    buffer: Seq<u8>,
    before: Seq<u8>,
    after: Seq<u8>,
    res: i32,
    data: Seq<u8>,
)
    requires
        io_valid(d),
        io_served(d, buffer, before, after, res, data),
    ensures
        d.op_flags % 256 == 2 ==> after == before && (res == 0 || res == -5),
        d.op_flags % 256 == 4 || d.op_flags % 256 > 5 ==> after == before && res == -22 && data.len()
            == 0,
        res == -22 ==> d.op_flags % 256 == 4 || d.op_flags % 256 > 5,
{
}

/// Each operation asks the store for the same thing at the same place: a sector is
/// 512 bytes.
pub proof fn a_kernel_request_is_passed_on(d: IoDesc, buffer: Seq<u8>)
    requires
        io_valid(d),
    ensures
        d.op_flags % 256 == 0 ==> (io_request(d, buffer) matches Some(
            backend::Request::Read { offset, len },
        ) && offset == d.start_sector * 512 && len == d.nr_sectors * 512),
        d.op_flags % 256 == 1 ==> (io_request(d, buffer) matches Some(
            backend::Request::Write { offset, data },
        ) && offset == d.start_sector * 512 && data == buffer),
        d.op_flags % 256 == 2 ==> io_request(d, buffer) == Some(backend::Request::Flush),
        d.op_flags % 256 == 3 || d.op_flags % 256 == 5 ==> (io_request(d, buffer) matches Some(
            backend::Request::Clear { offset, len },
        ) && offset == d.start_sector * 512 && len == d.nr_sectors * 512),
        d.op_flags % 256 == 4 || d.op_flags % 256 > 5 ==> io_request(d, buffer) is None,
{
}

/// Fitting keeps what was given, up to the length that was asked for, and fills
/// with zeros.
pub proof fn fitting_cuts_or_fills_with_zeros(got: Seq<u8>, len: nat)
    ensures
        fitted(got, len).len() == len,
        got.len() >= len ==> fitted(got, len) == got.take(len as int),
        got.len() < len ==> fitted(got, len) == got + Seq::new(
            (len - got.len()) as nat,
            |i: int| 0u8,
        ),
{
    if got.len() >= len {
        assert(fitted(got, len) =~= got.take(len as int));
    } else {
        assert(fitted(got, len) =~= got + Seq::new((len - got.len()) as nat, |i: int| 0u8));
    }
}

} // verus!

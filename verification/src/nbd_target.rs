//! NBD target: the server side of the Network Block Device protocol.
//!
//! The *fixed newstyle* handshake and the transmission phase, as functions on
//! bytes. The caller moves bytes between a socket and these functions:
//! [`greeting`] and [`client_flags`] open a connection, [`option_header`] and
//! [`answer_option`] haggle over options, [`request_header`] and
//! [`serve_request`] dispatch requests to a [`BlobBackend`]:
//!
//! - `NBD_CMD_READ` to `read`, `NBD_CMD_WRITE` to `write`, `NBD_CMD_FLUSH` to
//!   `flush`, `NBD_CMD_TRIM` and `NBD_CMD_WRITE_ZEROES` to `clear`,
//!   `NBD_CMD_DISC` to a flush and the end of the connection.
//!
//! Only *simple* replies are emitted, which every client understands.

use vstd::prelude::*;

use crate::backend;
use crate::backend::{BackendError, BlobBackend};
use crate::wire;

verus! {

// ── Protocol constants ──────────────────────────────────────────────────────

/// `"NBDMAGIC"`.
pub const NBDMAGIC: u64 = 0x4e42444d41474943;

/// `"IHAVEOPT"`.
pub const IHAVEOPT: u64 = 0x49484156454f5054;

pub const NBD_REP_MAGIC: u64 = 0x0003e889045565a9;

/// Handshake flags (server to client).
pub const NBD_FLAG_FIXED_NEWSTYLE: u16 = 1;

pub const NBD_FLAG_NO_ZEROES: u16 = 2;

/// Client handshake flag: the client does not want the zero padding.
pub const NBD_FLAG_C_NO_ZEROES: u32 = 2;

/// Transmission flags (advertised in the export info).
pub const NBD_FLAG_HAS_FLAGS: u16 = 1;

pub const NBD_FLAG_SEND_FLUSH: u16 = 4;

pub const NBD_FLAG_SEND_TRIM: u16 = 32;

pub const NBD_FLAG_SEND_WRITE_ZEROES: u16 = 64;

/// Option types (client to server).
pub const NBD_OPT_EXPORT_NAME: u32 = 1;

pub const NBD_OPT_ABORT: u32 = 2;

pub const NBD_OPT_LIST: u32 = 3;

pub const NBD_OPT_INFO: u32 = 6;

pub const NBD_OPT_GO: u32 = 7;

/// Option reply types (server to client).
pub const NBD_REP_ACK: u32 = 1;

pub const NBD_REP_SERVER: u32 = 2;

pub const NBD_REP_INFO: u32 = 3;

pub const NBD_REP_ERR_UNSUP: u32 = 0x80000001;

/// Info types (inside `NBD_REP_INFO`).
pub const NBD_INFO_EXPORT: u16 = 0;

pub const NBD_INFO_BLOCK_SIZE: u16 = 3;

/// Transmission phase magics.
pub const NBD_REQUEST_MAGIC: u32 = 0x25609513;

pub const NBD_SIMPLE_REPLY_MAGIC: u32 = 0x67446698;

/// Transmission commands.
pub const NBD_CMD_READ: u16 = 0;

pub const NBD_CMD_WRITE: u16 = 1;

pub const NBD_CMD_DISC: u16 = 2;

pub const NBD_CMD_FLUSH: u16 = 3;

pub const NBD_CMD_TRIM: u16 = 4;

pub const NBD_CMD_WRITE_ZEROES: u16 = 6;

/// Error codes on the wire.
pub const NBD_EIO: u32 = 5;

pub const NBD_EINVAL: u32 = 22;

pub const NBD_ENOSPC: u32 = 28;

/// Logical block size advertised to clients: the page-blob alignment.
pub const BLOCK_SIZE: u32 = 512;

/// Preferred block size advertised to clients.
pub const PREFERRED_SIZE: u32 = 4096;

/// Largest request size advertised to clients (32 MiB).
pub const MAXIMUM_SIZE: u32 = 33554432;

/// Length of an option header.
pub const OPTION_HEADER: usize = 16;

/// Length of a request header.
pub const REQUEST_HEADER: usize = 28;

// ── Handshake ───────────────────────────────────────────────────────────────

/// What the server opens a connection with.
pub open spec fn greeting_bytes() -> Seq<u8> {
    wire::be(NBDMAGIC as nat, 8) + wire::be(IHAVEOPT as nat, 8) + wire::be(
        (NBD_FLAG_FIXED_NEWSTYLE + NBD_FLAG_NO_ZEROES) as nat,
        2,
    )
}

/// What the server opens a connection with.
pub fn greeting() -> (r: Vec<u8>)
    ensures
        r@ == greeting_bytes(),
{
    let mut r: Vec<u8> = Vec::new();
    wire::push_be(&mut r, NBDMAGIC, 8);
    wire::push_be(&mut r, IHAVEOPT, 8);
    wire::push_be(&mut r, (NBD_FLAG_FIXED_NEWSTYLE + NBD_FLAG_NO_ZEROES) as u64, 2);
    assert(r@ =~= greeting_bytes());
    r
}

/// Whether the client's four flag bytes ask for no zero padding: the second
/// lowest bit.
pub fn client_flags(bytes: &Vec<u8>) -> (no_zeroes: bool)
    requires
        bytes@.len() == 4,
    ensures
        no_zeroes == (wire::from_be(bytes@) / 2 % 2 == 1),
{
    let flags: u64 = wire::get_be(bytes, 0, 4);
    assert(bytes@.subrange(0, 4) == bytes@);
    flags / 2 % 2 == 1
}

/// The transmission flags of the export.
pub fn transmission_flags() -> (r: u16)
    ensures
        r == NBD_FLAG_HAS_FLAGS + NBD_FLAG_SEND_FLUSH + NBD_FLAG_SEND_TRIM
            + NBD_FLAG_SEND_WRITE_ZEROES,
        r == 101,
{
    NBD_FLAG_HAS_FLAGS + NBD_FLAG_SEND_FLUSH + NBD_FLAG_SEND_TRIM + NBD_FLAG_SEND_WRITE_ZEROES
}

/// A message that does not begin with its magic number.
#[derive(Clone, Copy, Debug, PartialEq, Eq, Structural)]
pub struct BadMagic {
    pub magic: u64,
}

/// The option and the length of its data, from an option header.
pub fn option_header(bytes: &Vec<u8>) -> (r: Result<(u32, u32), BadMagic>)
    requires
        bytes@.len() == OPTION_HEADER,
    ensures
        ({
            let magic = wire::from_be(bytes@.subrange(0, 8));
            match r {
                Ok((opt, len)) => magic == IHAVEOPT && opt == wire::from_be(bytes@.subrange(8, 12))
                    && len == wire::from_be(bytes@.subrange(12, 16)),
                Err(e) => magic != IHAVEOPT && e.magic == magic,
            }
        }),
{
    let magic: u64 = wire::get_be(bytes, 0, 8);
    if magic != IHAVEOPT {
        return Err(BadMagic { magic });
    }
    proof {
        wire::lemma_spans();
    }
    let opt: u64 = wire::get_be(bytes, 8, 4);
    let len: u64 = wire::get_be(bytes, 12, 4);
    Ok((opt as u32, len as u32))
}

/// One option reply: header and payload.
pub open spec fn option_reply(opt: u32, rep_type: u32, data: Seq<u8>) -> Seq<u8> {
    wire::be(NBD_REP_MAGIC as nat, 8) + wire::be(opt as nat, 4) + wire::be(rep_type as nat, 4)
        + wire::be(data.len(), 4) + data
}

/// The export's size and flags.
pub open spec fn export_info(dev_size: u64) -> Seq<u8> {
    wire::be(NBD_INFO_EXPORT as nat, 2) + wire::be(dev_size as nat, 8) + wire::be(101, 2)
}

/// The export's minimum, preferred and maximum block size.
pub open spec fn block_info() -> Seq<u8> {
    wire::be(NBD_INFO_BLOCK_SIZE as nat, 2) + wire::be(BLOCK_SIZE as nat, 4) + wire::be(
        PREFERRED_SIZE as nat,
        4,
    ) + wire::be(MAXIMUM_SIZE as nat, 4)
}

/// The name of the single export, `azblob`, with its length.
pub open spec fn export_name() -> Seq<u8> {
    wire::be(6, 4) + seq![97u8, 122, 98, 108, 111, 98]
}

/// What an answered option leads to.
#[derive(Clone, Copy, Debug, PartialEq, Eq, Structural)]
pub enum Next {
    /// More options may follow.
    Haggle,
    /// The transmission phase begins.
    Transmit,
    /// The connection ends.
    Close,
}

/// The reply to an option.
pub open spec fn option_answer(opt: u32, dev_size: u64, no_zeroes: bool) -> Seq<u8> {
    if opt == NBD_OPT_EXPORT_NAME {
        wire::be(dev_size as nat, 8) + wire::be(101, 2) + (if no_zeroes {
            Seq::empty()
        } else {
            backend::zeros(124)
        })
    } else if opt == NBD_OPT_INFO || opt == NBD_OPT_GO {
        option_reply(opt, NBD_REP_INFO, export_info(dev_size)) + option_reply(
            opt,
            NBD_REP_INFO,
            block_info(),
        ) + option_reply(opt, NBD_REP_ACK, Seq::empty())
    } else if opt == NBD_OPT_LIST {
        option_reply(opt, NBD_REP_SERVER, export_name()) + option_reply(
            opt,
            NBD_REP_ACK,
            Seq::empty(),
        )
    } else if opt == NBD_OPT_ABORT {
        option_reply(opt, NBD_REP_ACK, Seq::empty())
    } else {
        option_reply(opt, NBD_REP_ERR_UNSUP, Seq::empty())
    }
}

/// What an option leads to.
pub open spec fn option_next(opt: u32) -> Next {
    if opt == NBD_OPT_EXPORT_NAME || opt == NBD_OPT_GO {
        Next::Transmit
    } else if opt == NBD_OPT_ABORT {
        Next::Close
    } else {
        Next::Haggle
    }
}

fn put_option_reply(out: &mut Vec<u8>, opt: u32, rep_type: u32, data: &Vec<u8>)
    requires
        data@.len() <= u32::MAX,
    ensures
        final(out)@ == old(out)@ + option_reply(opt, rep_type, data@),
{
    let ghost had = out@;
    wire::push_be(out, NBD_REP_MAGIC, 8);
    wire::push_be(out, opt as u64, 4);
    wire::push_be(out, rep_type as u64, 4);
    wire::push_be(out, data.len() as u64, 4);
    put_bytes(out, data);
    assert(out@ =~= had + option_reply(opt, rep_type, data@));
}

fn put_bytes(out: &mut Vec<u8>, data: &Vec<u8>)
    ensures
        final(out)@ == old(out)@ + data@,
{
    let ghost had = out@;
    let mut i: usize = 0;
    assert(had + data@.take(0) == had);
    while i < data.len()
        invariant
            i <= data@.len(),
            out@ == had + data@.take(i as int),
        decreases data@.len() - i,
    {
        out.push(data[i]);
        assert(out@ =~= had + data@.take(i + 1));
        i = i + 1;
    }
    assert(data@.take(data@.len() as int) == data@);
}

/// Answer one option of the haggling phase: what to send, and what comes next.
///
/// `NBD_OPT_EXPORT_NAME` selects the export in the old way, `NBD_OPT_GO` in the
/// new; `NBD_OPT_INFO` only asks; `NBD_OPT_LIST` lists the single export;
/// `NBD_OPT_ABORT` ends the connection; every other option is not supported.
pub fn answer_option(opt: u32, dev_size: u64, no_zeroes: bool) -> (r: (Vec<u8>, Next))
    ensures
        r.0@ == option_answer(opt, dev_size, no_zeroes),
        r.1 == option_next(opt),
{
    let mut out: Vec<u8> = Vec::new();
    let nothing: Vec<u8> = Vec::new();
    assert(nothing@ == Seq::<u8>::empty());
    if opt == NBD_OPT_EXPORT_NAME {
        wire::push_be(&mut out, dev_size, 8);
        wire::push_be(&mut out, transmission_flags() as u64, 2);
        if !no_zeroes {
            let mut pad: Vec<u8> = Vec::new();
            while pad.len() < 124
                invariant
                    pad@.len() <= 124,
                    forall|i: int| 0 <= i < pad@.len() ==> pad@[i] == 0,
                decreases 124 - pad@.len(),
            {
                pad.push(0);
            }
            put_bytes(&mut out, &pad);
            assert(pad@ =~= backend::zeros(124));
        }
        assert(out@ =~= option_answer(opt, dev_size, no_zeroes));
        (out, Next::Transmit)
    } else if opt == NBD_OPT_INFO || opt == NBD_OPT_GO {
        let mut export: Vec<u8> = Vec::new();
        wire::push_be(&mut export, NBD_INFO_EXPORT as u64, 2);
        wire::push_be(&mut export, dev_size, 8);
        wire::push_be(&mut export, transmission_flags() as u64, 2);
        assert(export@ =~= export_info(dev_size));
        let mut block: Vec<u8> = Vec::new();
        wire::push_be(&mut block, NBD_INFO_BLOCK_SIZE as u64, 2);
        wire::push_be(&mut block, BLOCK_SIZE as u64, 4);
        wire::push_be(&mut block, PREFERRED_SIZE as u64, 4);
        wire::push_be(&mut block, MAXIMUM_SIZE as u64, 4);
        assert(block@ =~= block_info());
        proof {
            lemma_be_len(NBD_INFO_EXPORT as nat, 2);
            lemma_be_len(dev_size as nat, 8);
            lemma_be_len(101, 2);
            lemma_be_len(NBD_INFO_BLOCK_SIZE as nat, 2);
            lemma_be_len(BLOCK_SIZE as nat, 4);
            lemma_be_len(PREFERRED_SIZE as nat, 4);
            lemma_be_len(MAXIMUM_SIZE as nat, 4);
        }
        put_option_reply(&mut out, opt, NBD_REP_INFO, &export);
        put_option_reply(&mut out, opt, NBD_REP_INFO, &block);
        put_option_reply(&mut out, opt, NBD_REP_ACK, &nothing);
        assert(out@ =~= option_answer(opt, dev_size, no_zeroes));
        if opt == NBD_OPT_GO {
            (out, Next::Transmit)
        } else {
            (out, Next::Haggle)
        }
    } else if opt == NBD_OPT_LIST {
        let mut name: Vec<u8> = Vec::new();
        wire::push_be(&mut name, 6, 4);
        name.push(97);
        name.push(122);
        name.push(98);
        name.push(108);
        name.push(111);
        name.push(98);
        proof {
            lemma_be_len(6, 4);
            assert(name@ =~= export_name());
        }
        put_option_reply(&mut out, opt, NBD_REP_SERVER, &name);
        put_option_reply(&mut out, opt, NBD_REP_ACK, &nothing);
        assert(out@ =~= option_answer(opt, dev_size, no_zeroes));
        (out, Next::Haggle)
    } else if opt == NBD_OPT_ABORT {
        put_option_reply(&mut out, opt, NBD_REP_ACK, &nothing);
        assert(out@ =~= option_answer(opt, dev_size, no_zeroes));
        (out, Next::Close)
    } else {
        put_option_reply(&mut out, opt, NBD_REP_ERR_UNSUP, &nothing);
        assert(out@ =~= option_answer(opt, dev_size, no_zeroes));
        (out, Next::Haggle)
    }
}

proof fn lemma_be_len(n: nat, w: nat)
    ensures
        wire::be(n, w).len() == w,
    decreases w,
{
    if w > 0 {
        lemma_be_len(n / 256, (w - 1) as nat);
    }
}

// ── Transmission ────────────────────────────────────────────────────────────

/// A request of the transmission phase.
#[derive(Clone, Copy, Debug, PartialEq, Eq, Structural)]
pub struct Request {
    pub flags: u16,
    pub cmd: u16,
    pub handle: u64,
    pub offset: u64,
    pub length: u32,
}

/// A request as it stands on the wire.
pub open spec fn request_bytes(q: Request) -> Seq<u8> {
    wire::be(NBD_REQUEST_MAGIC as nat, 4) + wire::be(q.flags as nat, 2) + wire::be(q.cmd as nat, 2)
        + wire::be(q.handle as nat, 8) + wire::be(q.offset as nat, 8) + wire::be(
        q.length as nat,
        4,
    )
}

/// The request in a header.
pub fn request_header(bytes: &Vec<u8>) -> (r: Result<Request, BadMagic>)
    requires
        bytes@.len() == REQUEST_HEADER,
    ensures
        ({
            let magic = wire::from_be(bytes@.subrange(0, 4));
            match r {
                Ok(q) => {
                    &&& magic == NBD_REQUEST_MAGIC
                    &&& q.flags == wire::from_be(bytes@.subrange(4, 6))
                    &&& q.cmd == wire::from_be(bytes@.subrange(6, 8))
                    &&& q.handle == wire::from_be(bytes@.subrange(8, 16))
                    &&& q.offset == wire::from_be(bytes@.subrange(16, 24))
                    &&& q.length == wire::from_be(bytes@.subrange(24, 28))
                },
                Err(e) => magic != NBD_REQUEST_MAGIC && e.magic == magic,
            }
        }),
{
    let magic: u64 = wire::get_be(bytes, 0, 4);
    if magic != NBD_REQUEST_MAGIC as u64 {
        return Err(BadMagic { magic });
    }
    proof {
        wire::lemma_spans();
    }
    let flags: u64 = wire::get_be(bytes, 4, 2);
    let cmd: u64 = wire::get_be(bytes, 6, 2);
    let handle: u64 = wire::get_be(bytes, 8, 8);
    let offset: u64 = wire::get_be(bytes, 16, 8);
    let length: u64 = wire::get_be(bytes, 24, 4);
    Ok(
        Request {
            flags: flags as u16,
            cmd: cmd as u16,
            handle,
            offset,
            length: length as u32,
        },
    )
}

/// A request that a client wrote is read as it was written.
pub proof fn a_request_reads_back(q: Request, bytes: Seq<u8>)
    requires
        bytes == request_bytes(q),
    ensures
        bytes.len() == REQUEST_HEADER,
        wire::from_be(bytes.subrange(0, 4)) == NBD_REQUEST_MAGIC,
        wire::from_be(bytes.subrange(4, 6)) == q.flags,
        wire::from_be(bytes.subrange(6, 8)) == q.cmd,
        wire::from_be(bytes.subrange(8, 16)) == q.handle,
        wire::from_be(bytes.subrange(16, 24)) == q.offset,
        wire::from_be(bytes.subrange(24, 28)) == q.length,
{
    wire::lemma_spans();
    lemma_be_len(NBD_REQUEST_MAGIC as nat, 4);
    lemma_be_len(q.flags as nat, 2);
    lemma_be_len(q.cmd as nat, 2);
    lemma_be_len(q.handle as nat, 8);
    lemma_be_len(q.offset as nat, 8);
    lemma_be_len(q.length as nat, 4);
    wire::be_reads_back(NBD_REQUEST_MAGIC as nat, 4);
    wire::be_reads_back(q.flags as nat, 2);
    wire::be_reads_back(q.cmd as nat, 2);
    wire::be_reads_back(q.handle as nat, 8);
    wire::be_reads_back(q.offset as nat, 8);
    wire::be_reads_back(q.length as nat, 4);
    assert(bytes.subrange(0, 4) =~= wire::be(NBD_REQUEST_MAGIC as nat, 4));
    assert(bytes.subrange(4, 6) =~= wire::be(q.flags as nat, 2));
    assert(bytes.subrange(6, 8) =~= wire::be(q.cmd as nat, 2));
    assert(bytes.subrange(8, 16) =~= wire::be(q.handle as nat, 8));
    assert(bytes.subrange(16, 24) =~= wire::be(q.offset as nat, 8));
    assert(bytes.subrange(24, 28) =~= wire::be(q.length as nat, 4));
}

/// What is wrong with a range, as an error code: misaligned, or beyond the device.
pub open spec fn range_error(offset: int, length: int, dev_size: int) -> Option<u32> {
    if offset % 512 != 0 || length % 512 != 0 {
        Some(NBD_EINVAL)
    } else if offset + length > dev_size {
        Some(NBD_ENOSPC)
    } else {
        None
    }
}

/// Validate a request against alignment and device bounds, returning the error
/// code to send if it is invalid.
pub fn bounds_error(offset: u64, length: u64, dev_size: u64) -> (r: Option<u32>)
    ensures
        r == range_error(offset as int, length as int, dev_size as int),
        r is None <==> offset % 512 == 0 && length % 512 == 0 && offset + length <= dev_size,
{
    if offset % (BLOCK_SIZE as u64) != 0 || length % (BLOCK_SIZE as u64) != 0 {
        return Some(NBD_EINVAL);
    }
    match offset.checked_add(length) {
        Some(end) => if end <= dev_size {
            None
        } else {
            Some(NBD_ENOSPC)
        },
        None => Some(NBD_ENOSPC),
    }
}

/// A simple reply: an error code (0 for success), the request's handle and, for a
/// read, the data.
pub open spec fn reply_bytes(error: u32, handle: u64, data: Seq<u8>) -> Seq<u8> {
    wire::be(NBD_SIMPLE_REPLY_MAGIC as nat, 4) + wire::be(error as nat, 4) + wire::be(
        handle as nat,
        8,
    ) + data
}

/// A simple reply.
pub fn simple_reply(error: u32, handle: u64, data: &Vec<u8>) -> (r: Vec<u8>)
    ensures
        r@ == reply_bytes(error, handle, data@),
{
    let mut r: Vec<u8> = Vec::new();
    wire::push_be(&mut r, NBD_SIMPLE_REPLY_MAGIC as u64, 4);
    wire::push_be(&mut r, error as u64, 4);
    wire::push_be(&mut r, handle, 8);
    put_bytes(&mut r, data);
    assert(r@ =~= reply_bytes(error, handle, data@));
    r
}

/// How many payload bytes follow a request header.
pub fn payload_len(q: &Request) -> (r: u32)
    ensures
        r == (if q.cmd == NBD_CMD_WRITE {
            q.length
        } else {
            0
        }),
{
    if q.cmd == NBD_CMD_WRITE {
        q.length
    } else {
        0
    }
}

/// The reply to a read, from what the store gave: the bytes, if there are as many
/// as were asked for, and otherwise an I/O error.
pub fn read_reply(q: &Request, got: Result<Vec<u8>, BackendError>) -> (r: Vec<u8>)
    ensures
        r@ == (match got {
            Ok(data) => if data@.len() == q.length {
                reply_bytes(0, q.handle, data@)
            } else {
                reply_bytes(NBD_EIO, q.handle, Seq::empty())
            },
            Err(_) => reply_bytes(NBD_EIO, q.handle, Seq::empty()),
        }),
{
    match got {
        Ok(data) => if data.len() as u64 == q.length as u64 {
            simple_reply(0, q.handle, &data)
        } else {
            simple_reply(NBD_EIO, q.handle, &Vec::new())
        },
        Err(_) => simple_reply(NBD_EIO, q.handle, &Vec::new()),
    }
}

/// The reply to a write, trim, zeroing or flush, from how it went.
pub fn change_reply(q: &Request, done: Result<(), BackendError>) -> (r: Vec<u8>)
    ensures
        r@ == reply_bytes(
            if done is Ok {
                0
            } else {
                NBD_EIO
            },
            q.handle,
            Seq::empty(),
        ),
{
    match done {
        Ok(()) => simple_reply(0, q.handle, &Vec::new()),
        Err(_) => simple_reply(NBD_EIO, q.handle, &Vec::new()),
    }
}

/// A request is answered with `error` and no data.
pub open spec fn answers(q: Request, reply: Option<Seq<u8>>, error: u32) -> bool {
    reply == Some(reply_bytes(error, q.handle, Seq::empty()))
}

/// What serving a request does to the bytes of the store, and what it replies;
/// without a reply the connection ends. Which of the two outcomes that a request
/// in range may have is taken is up to the store.
pub open spec fn served(
    q: Request,
    payload: Seq<u8>,
    dev_size: u64,
    before: Seq<u8>,
    after: Seq<u8>,
    reply: Option<Seq<u8>>,
) -> bool {
    let fault = range_error(q.offset as int, q.length as int, dev_size as int);
    if q.cmd == NBD_CMD_DISC {
        after == before && reply is None
    } else if q.cmd == NBD_CMD_FLUSH {
        after == before && (answers(q, reply, 0) || answers(q, reply, NBD_EIO))
    } else if q.cmd == NBD_CMD_READ {
        &&& after == before
        &&& match fault {
            Some(e) => answers(q, reply, e),
            None => {
                ||| answers(q, reply, NBD_EIO)
                ||| q.length == 0 && answers(q, reply, 0)
                ||| q.length > 0 && q.offset + q.length <= before.len() && reply == Some(
                    reply_bytes(
                        0,
                        q.handle,
                        before.subrange(q.offset as int, q.offset + q.length),
                    ),
                )
            },
        }
    } else if q.cmd == NBD_CMD_WRITE {
        match fault {
            Some(e) => after == before && answers(q, reply, e),
            None => {
                let done = backend::splice(before, q.offset as int, payload);
                ||| answers(q, reply, 0) && after == done
                ||| answers(q, reply, NBD_EIO) && backend::torn(after, before, done)
            },
        }
    } else if q.cmd == NBD_CMD_TRIM || q.cmd == NBD_CMD_WRITE_ZEROES {
        match fault {
            Some(e) => after == before && answers(q, reply, e),
            None => {
                let done = backend::splice(
                    before,
                    q.offset as int,
                    backend::zeros(q.length as nat),
                );
                ||| answers(q, reply, 0) && after == done
                ||| answers(q, reply, NBD_EIO) && backend::torn(after, before, done)
            },
        }
    } else {
        after == before && answers(q, reply, NBD_EINVAL)
    }
}

/// The bytes of an optional reply.
pub open spec fn reply_view(r: Option<Vec<u8>>) -> Option<Seq<u8>> {
    match r {
        Some(v) => Some(v@),
        None => None,
    }
}

/// What an NBD request asks of the store, if anything.
pub open spec fn asks(q: Request, payload: Seq<u8>, dev_size: u64) -> Option<backend::Request> {
    let (offset, len) = (q.offset, q.length as u64);
    if q.cmd == NBD_CMD_DISC || q.cmd == NBD_CMD_FLUSH {
        Some(backend::Request::Flush)
    } else if range_error(q.offset as int, q.length as int, dev_size as int) is Some {
        None
    } else if q.cmd == NBD_CMD_READ {
        Some(backend::Request::Read { offset, len })
    } else if q.cmd == NBD_CMD_WRITE {
        Some(backend::Request::Write { offset, data: payload })
    } else if q.cmd == NBD_CMD_TRIM || q.cmd == NBD_CMD_WRITE_ZEROES {
        Some(backend::Request::Clear { offset, len })
    } else {
        None
    }
}

/// Serve one request: dispatch it to the store and make the reply. Nothing is
/// replied to a disconnect, after which the connection ends.
pub fn serve_request<B: BlobBackend>(
    store: &mut B,
    q: &Request,
    payload: &Vec<u8>,
    dev_size: u64,
) -> (r: Option<Vec<u8>>)
    requires
        old(store).valid(),
        q.cmd == NBD_CMD_WRITE ==> payload@.len() == q.length,
    ensures
        final(store).valid(),
        served(
            *q,
            payload@,
            dev_size,
            old(store).bytes(),
            final(store).bytes(),
            reply_view(r),
        ),
        q.cmd == NBD_CMD_FLUSH && answers(*q, reply_view(r), 0) ==> final(store).durable()
            == final(store).bytes(),
        (q.cmd == NBD_CMD_READ || q.cmd == NBD_CMD_WRITE || q.cmd == NBD_CMD_TRIM || q.cmd
            == NBD_CMD_WRITE_ZEROES) && answers(*q, reply_view(r), NBD_EIO) && range_error(
            q.offset as int,
            q.length as int,
            dev_size as int,
        ) is None && backend::fair_range(
            q.offset as int,
            q.length as int,
            old(store).bytes().len() as int,
        ) ==> final(store).faults() > old(store).faults(),
        q.cmd == NBD_CMD_FLUSH && answers(*q, reply_view(r), NBD_EIO) && old(store).bytes().len() % 512
            == 0 ==> final(store).faults() > old(store).faults(),
        q.cmd == NBD_CMD_DISC && old(store).bytes().len() % 512 == 0 ==> final(store).durable()
            == final(store).bytes() || final(store).faults() > old(store).faults(),
        match asks(*q, payload@, dev_size) {
            Some(x) => final(store).requests() == old(store).requests().push(x),
            None => *final(store) == *old(store),
        },
        q.cmd == 0 && q.offset % 512 == 0 && q.length % 512 == 0 && q.length > 0 && q.offset + q.length
            <= dev_size <= old(store).bytes().len() && old(store).bytes().len() % 512 == 0
            ==> final(store).faults() > old(store).faults() || reply_view(r) == Some(
            reply_bytes(0, q.handle, old(store).bytes().subrange(q.offset as int, q.offset + q.length)),
        ),
        (q.cmd == 1 || q.cmd == 4 || q.cmd == 6) && q.offset % 512 == 0 && q.length % 512 == 0
            && q.offset + q.length <= dev_size <= old(store).bytes().len() && old(store).bytes().len()
            % 512 == 0 ==> final(store).faults() > old(store).faults() || reply_view(r) == Some(
            reply_bytes(0, q.handle, Seq::empty()),
        ),
{
    let nothing: Vec<u8> = Vec::new();
    assert(nothing@ == Seq::<u8>::empty());
    let offset: u64 = q.offset;
    let length: u64 = q.length as u64;
    proof {
        lemma_replies_differ(q.handle);
    }
    if q.cmd == NBD_CMD_DISC {
        match store.flush() {
            Ok(()) => {},
            Err(_) => {},
        }
        return None;
    }
    if q.cmd == NBD_CMD_FLUSH {
        return Some(change_reply(q, store.flush()));
    }
    let known = q.cmd == NBD_CMD_READ || q.cmd == NBD_CMD_WRITE || q.cmd == NBD_CMD_TRIM || q.cmd
        == NBD_CMD_WRITE_ZEROES;
    if !known {
        return Some(simple_reply(NBD_EINVAL, q.handle, &nothing));
    }
    if let Some(e) = bounds_error(offset, length, dev_size) {
        return Some(simple_reply(e, q.handle, &nothing));
    }
    if q.cmd == NBD_CMD_READ {
        let got = store.read(offset, length);
        proof {
            if let Ok(data) = &got {
                if data@.len() == 0 {
                    assert(data@ =~= Seq::<u8>::empty());
                }
            }
        }
        Some(read_reply(q, got))
    } else if q.cmd == NBD_CMD_WRITE {
        Some(change_reply(q, store.write(offset, payload)))
    } else {
        Some(change_reply(q, store.clear(offset, length)))
    }
}

/// Success and an I/O error are told apart on the wire.
proof fn lemma_replies_differ(handle: u64)
    ensures
        reply_bytes(0, handle, Seq::empty()) != reply_bytes(NBD_EIO, handle, Seq::empty()),
{
    let a = reply_bytes(0, handle, Seq::empty());
    let b = reply_bytes(NBD_EIO, handle, Seq::empty());
    lemma_be_len(NBD_SIMPLE_REPLY_MAGIC as nat, 4);
    lemma_be_len(0, 4);
    lemma_be_len(NBD_EIO as nat, 4);
    wire::lemma_spans();
    wire::be_reads_back(0, 4);
    wire::be_reads_back(NBD_EIO as nat, 4);
    assert(a.subrange(4, 8) =~= wire::be(0, 4));
    assert(b.subrange(4, 8) =~= wire::be(NBD_EIO as nat, 4));
}

// ── Laws ────────────────────────────────────────────────────────────────────

/// A read that is granted right after a granted write of the same range answers
/// with what was written.
pub proof fn a_read_answers_with_what_was_written(
    w: Request,
    payload: Seq<u8>,
    r: Request,
    dev_size: u64,
    s0: Seq<u8>,
    s1: Seq<u8>,
    s2: Seq<u8>,
    write_reply: Option<Seq<u8>>,
    read_reply: Option<Seq<u8>>,
)
    requires
        w.cmd == NBD_CMD_WRITE,
        payload.len() == w.length,
        r.cmd == NBD_CMD_READ,
        r.offset == w.offset,
        r.length == w.length,
        served(w, payload, dev_size, s0, s1, write_reply),
        answers(w, write_reply, 0),
        served(r, Seq::empty(), dev_size, s1, s2, read_reply),
        !answers(r, read_reply, NBD_EIO),
    ensures
        range_error(w.offset as int, w.length as int, dev_size as int) is None ==> read_reply
            == Some(reply_bytes(0, r.handle, payload)),
{
    if range_error(w.offset as int, w.length as int, dev_size as int) is None {
        lemma_replies_differ(w.handle);
        let done = backend::splice(s0, w.offset as int, payload);
        assert(s1 == done);
        if r.length > 0 {
            assert(w.offset + w.length <= s1.len());
            assert(s1.len() == s0.len());
            backend::read_gives_back_write(s0, w.offset as int, payload);
        } else {
            assert(payload =~= Seq::<u8>::empty());
        }
    }
}

/// A request that is misaligned or leaves the device never changes a byte.
pub proof fn a_bad_range_changes_nothing(
    q: Request,
    payload: Seq<u8>,
    dev_size: u64,
    before: Seq<u8>,
    after: Seq<u8>,
    reply: Option<Seq<u8>>,
)
    requires
        served(q, payload, dev_size, before, after, reply),
        range_error(q.offset as int, q.length as int, dev_size as int) is Some,
    ensures
        after == before,
{
}

/// A range is in order exactly when it consists of whole 512-byte blocks and every byte
/// of it is a byte of the device; the last block counts. A range that is not in whole
/// blocks is invalid (22), one that leaves the device has no space (28).
pub proof fn a_range_is_in_order_on_the_device(offset: int, length: int, dev_size: int)
    ensures
        range_error(offset, length, dev_size) is None <==> offset % 512 == 0 && length % 512 == 0
            && offset + length <= dev_size,
        range_error(offset, length, dev_size) == Some(22u32) <==> offset % 512 != 0 || length % 512
            != 0,
        range_error(offset, length, dev_size) == Some(28u32) <==> offset % 512 == 0 && length % 512
            == 0 && offset + length > dev_size,
        0 <= dev_size && dev_size % 512 == 0 ==> range_error(0, dev_size, dev_size) is None,
{
}

/// A read (command 0) of whole blocks on the device is answered with the bytes of the
/// device, and no error, unless the store fails (5).
pub proof fn a_read_on_the_device_answers_with_its_bytes(
    q: Request,
    payload: Seq<u8>,
    dev_size: u64,
    before: Seq<u8>,
    after: Seq<u8>,
    reply: Option<Seq<u8>>,
)
    requires
        served(q, payload, dev_size, before, after, reply),
        q.cmd == 0,
        q.offset % 512 == 0,
        q.length % 512 == 0,
        q.length > 0,
        q.offset + q.length <= dev_size,
    ensures
        after == before,
        reply is Some,
        reply == Some(reply_bytes(5, q.handle, Seq::empty())) || q.offset + q.length <= before.len()
            && reply == Some(
            reply_bytes(0, q.handle, before.subrange(q.offset as int, q.offset + q.length)),
        ),
{
}

/// A write (command 1) of whole blocks on the device that is answered without an error
/// put its payload there, byte by byte, and left every other byte alone.
pub proof fn a_write_on_the_device_changes_its_bytes(
    q: Request,
    payload: Seq<u8>,
    dev_size: u64,
    before: Seq<u8>,
    after: Seq<u8>,
    reply: Option<Seq<u8>>,
)
    requires
        served(q, payload, dev_size, before, after, reply),
        q.cmd == 1,
        payload.len() == q.length,
        q.offset % 512 == 0,
        q.length % 512 == 0,
        q.offset + q.length <= dev_size,
    ensures
        reply == Some(reply_bytes(0, q.handle, Seq::empty())) || reply == Some(
            reply_bytes(5, q.handle, Seq::empty()),
        ),
        reply == Some(reply_bytes(0, q.handle, Seq::empty())) ==> after.len() == before.len()
            && forall|i: int|
            0 <= i < before.len() ==> #[trigger] after[i] == (if q.offset <= i < q.offset + q.length {
                payload[i - q.offset]
            } else {
                before[i]
            }),
{
    lemma_replies_differ(q.handle);
}

/// A trim or a zeroing (commands 4 and 6) of whole blocks on the device that is answered
/// without an error left zeros there, and every other byte alone.
pub proof fn a_trim_on_the_device_zeroes_its_bytes(
    q: Request,
    payload: Seq<u8>,
    dev_size: u64,
    before: Seq<u8>,
    after: Seq<u8>,
    reply: Option<Seq<u8>>,
)
    requires
        served(q, payload, dev_size, before, after, reply),
        q.cmd == 4 || q.cmd == 6,
        q.offset % 512 == 0,
        q.length % 512 == 0,
        q.offset + q.length <= dev_size,
    ensures
        reply == Some(reply_bytes(0, q.handle, Seq::empty())) || reply == Some(
            reply_bytes(5, q.handle, Seq::empty()),
        ),
        reply == Some(reply_bytes(0, q.handle, Seq::empty())) ==> after.len() == before.len()
            && forall|i: int|
            0 <= i < before.len() ==> #[trigger] after[i] == (if q.offset <= i < q.offset + q.length {
                0u8
            } else {
                before[i]
            }),
{
    lemma_replies_differ(q.handle);
}

/// Only a disconnect (2) is not replied to; a flush (3), a command that is not known and
/// a range that is not in order leave every byte alone.
pub proof fn other_requests_change_nothing(
    q: Request,
    payload: Seq<u8>,
    dev_size: u64,
    before: Seq<u8>,
    after: Seq<u8>,
    reply: Option<Seq<u8>>,
)
    requires
        served(q, payload, dev_size, before, after, reply),
    ensures
        reply is None <==> q.cmd == 2,
        q.cmd == 0 || q.cmd == 2 || q.cmd == 3 || q.cmd == 5 || q.cmd > 6 ==> after == before,
        q.cmd == 5 || q.cmd > 6 ==> reply == Some(reply_bytes(22, q.handle, Seq::empty())),
        (q.cmd == 0 || q.cmd == 1 || q.cmd == 4 || q.cmd == 6) && (q.offset % 512 != 0 || q.length
            % 512 != 0) ==> after == before && reply == Some(
            reply_bytes(22, q.handle, Seq::empty()),
        ),
        (q.cmd == 0 || q.cmd == 1 || q.cmd == 4 || q.cmd == 6) && q.offset % 512 == 0 && q.length % 512
            == 0 && q.offset + q.length > dev_size ==> after == before && reply == Some(
            reply_bytes(28, q.handle, Seq::empty()),
        ),
{
}

/// What a request asks of the store: a read, a write or a clear of its own range, where
/// that is in order, a flush for a flush and a disconnect, and nothing else.
pub proof fn a_request_asks_for_its_own_range(q: Request, payload: Seq<u8>, dev_size: u64)
    ensures
        ({
            let fits = q.offset % 512 == 0 && q.length % 512 == 0 && q.offset + q.length <= dev_size;
            let asked = asks(q, payload, dev_size);
            &&& q.cmd == 0 && fits <==> asked is Some && asked->0 is Read
            &&& q.cmd == 1 && fits <==> asked is Some && asked->0 is Write
            &&& (q.cmd == 4 || q.cmd == 6) && fits <==> asked is Some && asked->0 is Clear
            &&& q.cmd == 2 || q.cmd == 3 <==> asked is Some && asked->0 is Flush
            &&& asked matches Some(backend::Request::Read { offset, len }) ==> offset == q.offset
                && len == q.length
            &&& asked matches Some(backend::Request::Write { offset, data }) ==> offset == q.offset
                && data == payload
            &&& asked matches Some(backend::Request::Clear { offset, len }) ==> offset == q.offset
                && len == q.length
        }),
{
}

/// A reply begins with its magic number, the error code and the handle of its request,
/// and the data follow.
pub proof fn a_reply_reads_back(error: u32, handle: u64, data: Seq<u8>)
    ensures
        ({
            let r = reply_bytes(error, handle, data);
            &&& r.len() == 16 + data.len()
            &&& wire::from_be(r.subrange(0, 4)) == 0x67446698
            &&& wire::from_be(r.subrange(4, 8)) == error
            &&& wire::from_be(r.subrange(8, 16)) == handle
            &&& r.subrange(16, r.len() as int) == data
        }),
{
    let r = reply_bytes(error, handle, data);
    wire::lemma_spans();
    wire::be_reads_back(0x67446698, 4);
    wire::be_reads_back(error as nat, 4);
    wire::be_reads_back(handle as nat, 8);
    assert(r.subrange(0, 4) =~= wire::be(0x67446698, 4));
    assert(r.subrange(4, 8) =~= wire::be(error as nat, 4));
    assert(r.subrange(8, 16) =~= wire::be(handle as nat, 8));
    assert(r.subrange(16, r.len() as int) =~= data);
}

/// An option reply begins with its magic number, the option, the type of the reply and
/// the number of bytes that follow.
pub proof fn an_option_reply_reads_back(opt: u32, rep_type: u32, data: Seq<u8>)
    requires
        data.len() <= u32::MAX,
    ensures
        ({
            let r = option_reply(opt, rep_type, data);
            &&& r.len() == 20 + data.len()
            &&& wire::from_be(r.subrange(0, 8)) == 0x0003e889045565a9
            &&& wire::from_be(r.subrange(8, 12)) == opt
            &&& wire::from_be(r.subrange(12, 16)) == rep_type
            &&& wire::from_be(r.subrange(16, 20)) == data.len()
            &&& r.subrange(20, r.len() as int) == data
        }),
{
    let r = option_reply(opt, rep_type, data);
    wire::lemma_spans();
    wire::be_reads_back(0x0003e889045565a9, 8);
    wire::be_reads_back(opt as nat, 4);
    wire::be_reads_back(rep_type as nat, 4);
    wire::be_reads_back(data.len(), 4);
    assert(r.subrange(0, 8) =~= wire::be(0x0003e889045565a9, 8));
    assert(r.subrange(8, 12) =~= wire::be(opt as nat, 4));
    assert(r.subrange(12, 16) =~= wire::be(rep_type as nat, 4));
    assert(r.subrange(16, 20) =~= wire::be(data.len(), 4));
    assert(r.subrange(20, r.len() as int) =~= data);
}

/// A client that selects the export in the old way (option 1) learns the size of the
/// device and the transmission flags, and gets padding unless it wants none.
pub proof fn an_export_name_is_answered_with_the_size(dev_size: u64, no_zeroes: bool)
    ensures
        ({
            let r = option_answer(1, dev_size, no_zeroes);
            &&& wire::from_be(r.subrange(0, 8)) == dev_size
            &&& wire::from_be(r.subrange(8, 10)) == 101
            &&& r.len() == (if no_zeroes {
                10int
            } else {
                134int
            })
            &&& forall|i: int| 10 <= i < r.len() ==> #[trigger] r[i] == 0
        }),
{
    let r = option_answer(1, dev_size, no_zeroes);
    wire::lemma_spans();
    wire::be_reads_back(dev_size as nat, 8);
    wire::be_reads_back(101, 2);
    assert(r.subrange(0, 8) =~= wire::be(dev_size as nat, 8));
    assert(r.subrange(8, 10) =~= wire::be(101, 2));
}

/// A client that asks for the export in the new way (options 6 and 7) gets three
/// replies: the size of the device with the transmission flags, the block sizes, and an
/// acknowledgement.
pub proof fn an_export_is_described_by_its_size(opt: u32, dev_size: u64, no_zeroes: bool)
    requires
        opt == 6 || opt == 7,
    ensures
        ({
            let r = option_answer(opt, dev_size, no_zeroes);
            &&& r.len() == 86
            &&& r.subrange(0, 32) == option_reply(opt, 3, r.subrange(20, 32))
            &&& wire::from_be(r.subrange(20, 22)) == 0
            &&& wire::from_be(r.subrange(22, 30)) == dev_size
            &&& wire::from_be(r.subrange(30, 32)) == 101
            &&& r.subrange(32, 66) == option_reply(opt, 3, r.subrange(52, 66))
            &&& wire::from_be(r.subrange(52, 54)) == 3
            &&& wire::from_be(r.subrange(54, 58)) == 512
            &&& wire::from_be(r.subrange(58, 62)) == 4096
            &&& wire::from_be(r.subrange(62, 66)) == 33554432
            &&& r.subrange(66, 86) == option_reply(opt, 1, Seq::empty())
        }),
{
    let r = option_answer(opt, dev_size, no_zeroes);
    wire::lemma_spans();
    wire::be_reads_back(0, 2);
    wire::be_reads_back(dev_size as nat, 8);
    wire::be_reads_back(101, 2);
    wire::be_reads_back(3, 2);
    wire::be_reads_back(512, 4);
    wire::be_reads_back(4096, 4);
    wire::be_reads_back(33554432, 4);
    let a = export_info(dev_size);
    let b = block_info();
    assert(a.len() == 12 && b.len() == 14);
    an_option_reply_reads_back(opt, 3, a);
    an_option_reply_reads_back(opt, 3, b);
    an_option_reply_reads_back(opt, 1, Seq::empty());
    let (x, y, z) = (option_reply(opt, 3, a), option_reply(opt, 3, b), option_reply(opt, 1, Seq::empty()));
    assert(r == x + y + z);
    assert(r.subrange(0, 32) =~= x);
    assert(r.subrange(32, 66) =~= y);
    assert(r.subrange(66, 86) =~= z);
    assert(r.subrange(20, 32) =~= x.subrange(20, 32));
    assert(r.subrange(52, 66) =~= y.subrange(20, 34));
    assert(r.subrange(20, 22) =~= wire::be(0, 2));
    assert(r.subrange(22, 30) =~= wire::be(dev_size as nat, 8)) by {
        assert(r.subrange(22, 30) =~= a.subrange(2, 10));
        assert(a.subrange(2, 10) =~= wire::be(dev_size as nat, 8));
    }
    assert(r.subrange(20, 22) =~= a.subrange(0, 2));
    assert(r.subrange(30, 32) =~= a.subrange(10, 12));
    assert(a.subrange(10, 12) =~= wire::be(101, 2));
    assert(r.subrange(52, 54) =~= b.subrange(0, 2));
    assert(b.subrange(0, 2) =~= wire::be(3, 2));
    assert(r.subrange(54, 58) =~= b.subrange(2, 6));
    assert(b.subrange(2, 6) =~= wire::be(512, 4));
    assert(r.subrange(58, 62) =~= b.subrange(6, 10));
    assert(b.subrange(6, 10) =~= wire::be(4096, 4));
    assert(r.subrange(62, 66) =~= b.subrange(10, 14));
    assert(b.subrange(10, 14) =~= wire::be(33554432, 4));
}

/// The other options: a list (3) names the one export, an abort (2) is acknowledged, and
/// anything else is refused as unsupported. Only selecting the export leads to the
/// transmission, and only an abort ends the connection.
pub proof fn options_lead_where_they_should(opt: u32, dev_size: u64, no_zeroes: bool)
    ensures
        opt == 2 ==> option_answer(opt, dev_size, no_zeroes) == option_reply(opt, 1, Seq::empty()),
        opt == 3 ==> option_answer(opt, dev_size, no_zeroes) == option_reply(
            opt,
            2,
            seq![0u8, 0, 0, 6, 97, 122, 98, 108, 111, 98],
        ) + option_reply(opt, 1, Seq::empty()),
        opt == 0 || opt == 4 || opt == 5 || opt > 7 ==> option_answer(opt, dev_size, no_zeroes)
            == option_reply(opt, 0x80000001, Seq::empty()),
        option_next(opt) is Transmit <==> opt == 1 || opt == 7,
        option_next(opt) is Close <==> opt == 2,
{
    wire::network_order_puts_the_highest_byte_first(6);
    assert(export_name() =~= seq![0u8, 0, 0, 6, 97, 122, 98, 108, 111, 98]);
}

/// The server opens with `NBDMAGIC`, `IHAVEOPT` and the flags of the fixed newstyle
/// handshake without padding.
pub proof fn the_greeting_is_the_fixed_newstyle_one()
    ensures
        greeting_bytes() == seq![
            78u8, 66, 68, 77, 65, 71, 73, 67, 73, 72, 65, 86, 69, 79, 80, 84, 0, 3,
        ],
{
    wire::network_order_puts_the_highest_byte_first(0x4e42444d41474943);
    wire::network_order_puts_the_highest_byte_first(0x4e42444d);
    wire::network_order_puts_the_highest_byte_first(0x49484156454f5054);
    wire::network_order_puts_the_highest_byte_first(0x49484156);
    wire::network_order_puts_the_highest_byte_first(3);
    assert(greeting_bytes() =~= seq![
        78u8, 66, 68, 77, 65, 71, 73, 67, 73, 72, 65, 86, 69, 79, 80, 84, 0, 3,
    ]);
}

} // verus!

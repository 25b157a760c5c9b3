use ublk_azblob::backend::mem::MemBackend;
use ublk_azblob::backend::{BackendError, BlobBackend};
use ublk_azblob::nbd_target::{
    answer_option, change_reply, client_flags, greeting, option_header, payload_len, read_reply,
    request_header, serve_request, simple_reply, transmission_flags, Next, Request, IHAVEOPT,
    NBDMAGIC, NBD_CMD_DISC, NBD_CMD_FLUSH, NBD_CMD_READ, NBD_CMD_TRIM, NBD_CMD_WRITE, NBD_EINVAL,
    NBD_EIO, NBD_ENOSPC, NBD_FLAG_C_NO_ZEROES, NBD_FLAG_FIXED_NEWSTYLE, NBD_OPT_ABORT, NBD_OPT_GO,
    NBD_OPT_EXPORT_NAME, NBD_OPT_LIST, NBD_REP_ACK, NBD_REP_ERR_UNSUP, NBD_REP_MAGIC,
    NBD_REQUEST_MAGIC, NBD_SIMPLE_REPLY_MAGIC,
};
use ublk_azblob::ublk_target::{
    change_result, handle_io, read_result, IoDesc, UblkConfig, EINVAL, EIO, UBLK_IO_OP_DISCARD,
    UBLK_IO_OP_FLUSH, UBLK_IO_OP_READ, UBLK_IO_OP_WRITE,
};

fn be64(b: &[u8]) -> u64 {
    b.iter().fold(0, |n, &x| n << 8 | x as u64)
}

/// Perform the fixed-newstyle handshake with `NBD_OPT_GO`.
fn handshake(size: u64) {
    let hello = greeting();
    assert_eq!(be64(&hello[0..8]), NBDMAGIC);
    assert_eq!(be64(&hello[8..16]), IHAVEOPT);
    assert!(be64(&hello[16..18]) as u16 & NBD_FLAG_FIXED_NEWSTYLE != 0);
    assert!(client_flags(&NBD_FLAG_C_NO_ZEROES.to_be_bytes().to_vec()));

    let mut opt = IHAVEOPT.to_be_bytes().to_vec();
    opt.extend_from_slice(&NBD_OPT_GO.to_be_bytes());
    opt.extend_from_slice(&12u32.to_be_bytes());
    let (code, len) = option_header(&opt).unwrap();
    assert_eq!((code, len), (NBD_OPT_GO, 12));

    // Drain option replies until the acknowledgement.
    let (replies, next) = answer_option(code, size, true);
    assert_eq!(next, Next::Transmit);
    let mut at = 0usize;
    loop {
        assert_eq!(be64(&replies[at..at + 8]), NBD_REP_MAGIC);
        assert_eq!(be64(&replies[at + 8..at + 12]) as u32, NBD_OPT_GO);
        let rep = be64(&replies[at + 12..at + 16]) as u32;
        let n = be64(&replies[at + 16..at + 20]) as usize;
        at += 20 + n;
        if rep == NBD_REP_ACK {
            break;
        }
    }
    assert_eq!(at, replies.len());
}

/// Send one request and return its reply's error, handle and data.
fn request(
    b: &mut MemBackend,
    size: u64,
    cmd: u16,
    handle: u64,
    offset: u64,
    length: u32,
    payload: &[u8],
) -> (u32, u64, Vec<u8>) {
    let mut head = NBD_REQUEST_MAGIC.to_be_bytes().to_vec();
    head.extend_from_slice(&0u16.to_be_bytes());
    head.extend_from_slice(&cmd.to_be_bytes());
    head.extend_from_slice(&handle.to_be_bytes());
    head.extend_from_slice(&offset.to_be_bytes());
    head.extend_from_slice(&length.to_be_bytes());
    let q = request_header(&head).unwrap();
    assert_eq!(q, Request { flags: 0, cmd, handle, offset, length });
    assert_eq!(payload_len(&q) as usize, payload.len());
    let r = serve_request(b, &q, &payload.to_vec(), size).unwrap();
    assert_eq!(be64(&r[0..4]) as u32, NBD_SIMPLE_REPLY_MAGIC);
    (be64(&r[4..8]) as u32, be64(&r[8..16]), r[16..].to_vec())
}

#[test]
fn write_then_read_roundtrip() {
    handshake(4096);
    let mut b = MemBackend::new(4096).unwrap();
    let payload = vec![0xABu8; 512];
    let (err, handle, _) = request(&mut b, 4096, NBD_CMD_WRITE, 1, 512, 512, &payload);
    assert_eq!(err, 0);
    assert_eq!(handle, 1);
    let (err, handle, got) = request(&mut b, 4096, NBD_CMD_READ, 2, 512, 512, &[]);
    assert_eq!(err, 0);
    assert_eq!(handle, 2);
    assert_eq!(got, payload);
}

#[test]
fn trim_zeroes_region() {
    let mut b = MemBackend::new(4096).unwrap();
    assert_eq!(request(&mut b, 4096, NBD_CMD_WRITE, 1, 0, 1024, &vec![0xFFu8; 1024]).0, 0);
    assert_eq!(request(&mut b, 4096, NBD_CMD_TRIM, 2, 0, 1024, &[]).0, 0);
    let (err, _, got) = request(&mut b, 4096, NBD_CMD_READ, 3, 0, 1024, &[]);
    assert_eq!(err, 0);
    assert_eq!(got.len(), 1024);
    assert!(got.iter().all(|&x| x == 0));
}

#[test]
fn flush_succeeds() {
    let mut b = MemBackend::new(4096).unwrap();
    let (err, handle, _) = request(&mut b, 4096, NBD_CMD_FLUSH, 7, 0, 0, &[]);
    assert_eq!(err, 0);
    assert_eq!(handle, 7);
}

#[test]
fn unaligned_request_rejected() {
    let mut b = MemBackend::new(4096).unwrap();
    // Offset 1 is not 512-aligned.
    let (err, handle, _) = request(&mut b, 4096, NBD_CMD_READ, 9, 1, 512, &[]);
    assert_eq!(err, NBD_EINVAL);
    assert_eq!(handle, 9);
}

#[test]
fn out_of_bounds_rejected() {
    let mut b = MemBackend::new(512).unwrap();
    let (err, handle, _) = request(&mut b, 512, NBD_CMD_READ, 11, 0, 1024, &[]);
    assert_eq!(err, NBD_ENOSPC);
    assert_eq!(handle, 11);
}

#[test]
fn a_bad_request_changes_nothing() {
    let mut b = MemBackend::new(512).unwrap();
    let (err, _, _) = request(&mut b, 512, NBD_CMD_WRITE, 1, 512, 512, &vec![1u8; 512]);
    assert_eq!(err, NBD_ENOSPC);
    assert_eq!(request(&mut b, 512, 99, 1, 0, 0, &[]).0, NBD_EINVAL);
    assert!(b.read(0, 512).unwrap().iter().all(|&x| x == 0));
    let q = Request { flags: 0, cmd: NBD_CMD_DISC, handle: 1, offset: 0, length: 0 };
    assert!(serve_request(&mut b, &q, &Vec::new(), 512).is_none());
    assert!(request_header(&vec![0u8; 28]).is_err());
    assert!(option_header(&vec![0u8; 16]).is_err());
}

#[test]
fn replies_follow_the_store() {
    let q = Request { flags: 0, cmd: NBD_CMD_READ, handle: 5, offset: 0, length: 4 };
    assert_eq!(read_reply(&q, Ok(vec![1, 2, 3, 4])), simple_reply(0, 5, &vec![1, 2, 3, 4]));
    assert_eq!(read_reply(&q, Ok(vec![1])), simple_reply(NBD_EIO, 5, &Vec::new()));
    assert_eq!(
        read_reply(&q, Err(BackendError::Unsupported)),
        simple_reply(NBD_EIO, 5, &Vec::new())
    );
    assert_eq!(change_reply(&q, Ok(())), simple_reply(0, 5, &Vec::new()));
    assert_eq!(
        change_reply(&q, Err(BackendError::Unsupported)),
        simple_reply(NBD_EIO, 5, &Vec::new())
    );
}

#[test]
fn options_are_answered() {
    assert_eq!(transmission_flags(), 101);
    let (old_way, next) = answer_option(NBD_OPT_EXPORT_NAME, 4096, false);
    assert_eq!(next, Next::Transmit);
    assert_eq!(old_way.len(), 10 + 124);
    assert_eq!(be64(&old_way[0..8]), 4096);
    assert_eq!(answer_option(NBD_OPT_EXPORT_NAME, 4096, true).0.len(), 10);
    assert_eq!(answer_option(NBD_OPT_ABORT, 4096, true).1, Next::Close);
    let (list, next) = answer_option(NBD_OPT_LIST, 4096, true);
    assert_eq!(next, Next::Haggle);
    assert_eq!(&list[24..30], b"azblob");
    let (unknown, next) = answer_option(77, 4096, true);
    assert_eq!(next, Next::Haggle);
    assert_eq!(be64(&unknown[12..16]) as u32, NBD_REP_ERR_UNSUP);
}

#[test]
fn kernel_requests_are_served() {
    let mut b = MemBackend::new(4096).unwrap();
    let io = |op, start_sector, nr_sectors| IoDesc { op_flags: op, start_sector, nr_sectors };
    let w = handle_io(&mut b, &io(UBLK_IO_OP_WRITE, 1, 2), &vec![3u8; 1024]);
    assert_eq!(w.res, 1024);
    let r = handle_io(&mut b, &io(UBLK_IO_OP_READ | 0x100, 1, 2), &Vec::new());
    assert_eq!(r.res, 1024);
    assert_eq!(r.data, vec![3u8; 1024]);
    assert_eq!(handle_io(&mut b, &io(UBLK_IO_OP_FLUSH, 0, 0), &Vec::new()).res, 0);
    assert_eq!(handle_io(&mut b, &io(UBLK_IO_OP_DISCARD, 1, 1), &Vec::new()).res, 0);
    assert!(b.read(512, 512).unwrap().iter().all(|&x| x == 0));
    assert_eq!(handle_io(&mut b, &io(UBLK_IO_OP_READ, 100, 1), &Vec::new()).res, -EIO);
    assert_eq!(handle_io(&mut b, &io(4, 0, 0), &Vec::new()).res, -EINVAL);
    let d = UblkConfig::default();
    assert_eq!((d.block_size, d.dev_size, d.nr_queues, d.queue_depth, d.id), (512, 0, 1, 64, -1));
}

#[test]
fn kernel_results_follow_the_store() {
    let short = read_result(4, Ok(vec![1, 2]));
    assert_eq!((short.res, short.data), (4, vec![1, 2, 0, 0]));
    let long = read_result(1, Ok(vec![1, 2]));
    assert_eq!((long.res, long.data), (1, vec![1]));
    assert_eq!(read_result(4, Err(BackendError::Unsupported)).res, -EIO);
    assert_eq!(change_result(512, Ok(())).res, 512);
    assert_eq!(change_result(512, Err(BackendError::Unsupported)).res, -EIO);
}

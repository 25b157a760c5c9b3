use ublk_azblob::backend::mem::MemBackend;
use ublk_azblob::backend::{
    copy_chunk_bytes, range_intersects, smoke_test, warmup, warmup_chunks, BackendError, BlobBackend,
    Op, SmokeTest,
};

#[test]
fn test_create_and_size() {
    let mut b = MemBackend::new(4096).unwrap();
    assert_eq!(b.size().unwrap(), 4096);
    b.create(8192).unwrap();
    assert_eq!(b.size().unwrap(), 8192);
}

#[test]
fn test_write_read() {
    let mut b = MemBackend::new(4096).unwrap();
    let payload = vec![0xABu8; 512];
    b.write(512, &payload).unwrap();
    assert_eq!(b.read(512, 512).unwrap(), payload);
    assert!(b.read(0, 512).unwrap().iter().all(|&x| x == 0));
}

#[test]
fn test_clear() {
    let mut b = MemBackend::new(4096).unwrap();
    b.write(0, &vec![0xFFu8; 1024]).unwrap();
    b.clear(0, 1024).unwrap();
    assert!(b.read(0, 1024).unwrap().iter().all(|&x| x == 0));
}

#[test]
fn test_alignment_errors() {
    let mut b = MemBackend::new(4096).unwrap();
    assert!(b.read(1, 512).is_err());
    assert!(b.read(0, 100).is_err());
    assert!(b.write(0, &vec![0u8; 100]).is_err());
    assert!(b.clear(0, 100).is_err());
    match b.read(1, 512) {
        Err(BackendError::Misaligned { name, value, align }) => {
            assert_eq!(name, "offset");
            assert_eq!(value, 1);
            assert_eq!(align, 512);
        }
        _ => panic!("expected a misaligned offset"),
    }
}

#[test]
fn test_out_of_bounds() {
    let mut b = MemBackend::new(512).unwrap();
    assert!(b.read(0, 1024).is_err());
    assert!(b.write(0, &vec![0u8; 1024]).is_err());
    assert!(b.clear(0, 1024).is_err());
    assert!(matches!(
        b.read(0, 1024),
        Err(BackendError::OutOfBounds { op: Op::Read, offset: 0, len: 1024, size: 512 })
    ));
    assert!(matches!(
        b.read(u64::MAX - 511, 512),
        Err(BackendError::Overflow { op: Op::Read, .. })
    ));
}

#[test]
fn test_full_write_read_clear_cycle() {
    const SIZE: u64 = 4096;
    let mut b = MemBackend::new(SIZE).unwrap();
    for page in 0..(SIZE / 512) {
        b.write(page * 512, &vec![(page & 0xFF) as u8; 512]).unwrap();
    }
    for page in 0..(SIZE / 512) {
        assert!(b.read(page * 512, 512).unwrap().iter().all(|&x| x == (page & 0xFF) as u8));
    }
    b.clear(512, 1024).unwrap();
    assert!(b.read(512, 1024).unwrap().iter().all(|&x| x == 0));
    assert!(b.read(0, 512).unwrap().iter().all(|&x| x == 0));
    let last = b.read(SIZE - 512, 512).unwrap();
    assert!(last.iter().all(|&x| x == ((SIZE / 512 - 1) & 0xFF) as u8));
}

#[test]
fn mem_sizes_are_checked() {
    assert!(matches!(MemBackend::new(0), Err(BackendError::EmptySize)));
    assert!(matches!(MemBackend::new(100), Err(BackendError::Misaligned { .. })));
    let mut b = MemBackend::new(1024).unwrap();
    assert!(matches!(b.resize(512), Err(BackendError::Shrink { size: 1024, new_size: 512 })));
    b.write(0, &vec![7u8; 1024]).unwrap();
    b.resize(2048).unwrap();
    assert_eq!(&b.contents()[..1024], &vec![7u8; 1024][..]);
    assert_eq!(&b.contents()[1024..], &vec![0u8; 1024][..]);
    b.delete().unwrap();
    assert_eq!(b.size().unwrap(), 0);
}

#[test]
fn snapshot_default_unsupported_on_membackend() {
    let mut b = MemBackend::new(512).unwrap();
    assert!(b.snapshot().is_err());
}

#[test]
fn copy_chunk_is_aligned_and_clamped() {
    assert_eq!(copy_chunk_bytes(None), 4 * 1024 * 1024);
    assert_eq!(copy_chunk_bytes(Some("junk")), 4 * 1024 * 1024);
    assert_eq!(copy_chunk_bytes(Some("0")), 512);
    assert_eq!(copy_chunk_bytes(Some("1000")), 512);
    assert_eq!(copy_chunk_bytes(Some("1024")), 1024);
    assert_eq!(copy_chunk_bytes(Some("99999999999")), 4 * 1024 * 1024);
}

#[test]
fn range_intersection_counts_shared_bytes_only() {
    let ranges = vec![(1024u64, 512u64), (4096, 1024)];
    assert!(range_intersects(&ranges, 0, 1536));
    assert!(!range_intersects(&ranges, 0, 1024));
    assert!(!range_intersects(&ranges, 1536, 512));
    assert!(range_intersects(&ranges, 5000, 1));
    assert!(!range_intersects(&vec![(u64::MAX, 0)], u64::MAX, 1));
}

#[test]
fn smoke_test_passes_on_memory() {
    let mut b = MemBackend::new(512).unwrap();
    assert!(matches!(smoke_test(&mut b, 4096), SmokeTest::Passed));
    assert_eq!(b.size().unwrap(), 4096);
    assert!(matches!(smoke_test(&mut b, 100), SmokeTest::Failed(_)));
}

/// Records every read, to show the order in which a warm-up asks for pages.
struct Recording {
    size: u64,
    reads: Vec<(u64, u64)>,
}

impl BlobBackend for Recording {
    fn create(&mut self, _size: u64) -> Result<(), BackendError> {
        Ok(())
    }
    fn read(&mut self, offset: u64, len: u64) -> Result<Vec<u8>, BackendError> {
        self.reads.push((offset, len));
        Ok(vec![0u8; len as usize])
    }
    fn write(&mut self, _offset: u64, _data: &Vec<u8>) -> Result<(), BackendError> {
        Ok(())
    }
    fn clear(&mut self, _offset: u64, _len: u64) -> Result<(), BackendError> {
        Ok(())
    }
    fn discard(&mut self, _offset: u64, _len: u64) -> Result<(), BackendError> {
        Ok(())
    }
    fn flush(&mut self) -> Result<(), BackendError> {
        Ok(())
    }
    fn resize(&mut self, _new_size: u64) -> Result<(), BackendError> {
        Ok(())
    }
    fn delete(&mut self) -> Result<(), BackendError> {
        Ok(())
    }
    fn size(&mut self) -> Result<u64, BackendError> {
        Ok(self.size)
    }
    fn snapshot(&mut self) -> Result<String, BackendError> {
        Err(BackendError::Unsupported)
    }
}

#[test]
fn warmup_scans_whole_device_in_page_chunks() {
    let mut b = Recording { size: 8192, reads: Vec::new() };
    assert_eq!(warmup(&mut b, 8192, 4096, 8192).0, 8192);
    assert_eq!(b.reads, vec![(0, 4096), (4096, 4096)]);
    assert_eq!(warmup_chunks(8192, 4096, 8192), vec![(0, 4096), (4096, 4096)]);
    assert_eq!(b.size().unwrap(), 8192);
}

#[test]
fn warmup_stops_at_limit() {
    let mut b = Recording { size: 8192, reads: Vec::new() };
    assert_eq!(warmup(&mut b, 8192, 4096, 4096).0, 4096);
    assert_eq!(b.reads, vec![(0, 4096)]);
}

#[test]
fn warmup_last_chunk_is_clamped_to_device() {
    let mut b = Recording { size: 6144, reads: Vec::new() };
    assert_eq!(warmup(&mut b, 6144, 4096, u64::MAX).0, 6144);
    assert_eq!(b.reads, vec![(0, 4096), (4096, 2048)]);
    assert_eq!(warmup_chunks(6144, 4096, u64::MAX), vec![(0, 4096), (4096, 2048)]);
}

#[test]
fn warmup_stops_at_the_first_failure() {
    let mut b = MemBackend::new(4096).unwrap();
    let (warmed, failure) = warmup(&mut b, 8192, 4096, 8192);
    assert_eq!(warmed, 4096);
    assert!(matches!(failure, Some(BackendError::OutOfBounds { offset: 4096, .. })));
    let (warmed, failure) = warmup(&mut b, 4096, 4096, 1);
    assert_eq!(warmed, 4096);
    assert!(failure.is_none());
}

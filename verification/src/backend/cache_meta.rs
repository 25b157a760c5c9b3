//! The on-disk metadata of the local cache.
//!
//! A header of 64 bytes (magic, version, page size, device size, page count, all
//! little-endian) is followed by two bitmaps, `present` and `dirty`, one bit per
//! page. The file is kept padded with zeros to a multiple of 512 bytes.

use vstd::prelude::*;

use crate::backend;
use crate::backend::bitmap;
use crate::backend::pages;
use crate::wire;

verus! {

/// Metadata format version.
pub const VERSION: u64 = 1;

/// Size of the metadata header in bytes; the two bitmaps follow it.
pub const HEADER_SIZE: u64 = 64;

/// The bytes `UBLKFCAC`.
pub open spec fn magic() -> Seq<u8> {
    seq![85u8, 66, 76, 75, 70, 67, 65, 67]
}

/// The metadata header.
pub open spec fn header(page_size: u64, dev_size: u64, num_pages: u64) -> Seq<u8> {
    magic() + wire::le(VERSION as nat, 4) + backend::zeros(4) + wire::le(page_size as nat, 8)
        + wire::le(dev_size as nat, 8) + wire::le(num_pages as nat, 8) + backend::zeros(24)
}

/// Header and bitmaps.
pub open spec fn image(
    page_size: u64,
    dev_size: u64,
    num_pages: u64,
    present: Seq<u8>,
    dirty: Seq<u8>,
) -> Seq<u8> {
    header(page_size, dev_size, num_pages) + present + dirty
}

/// `n` rounded up to a multiple of 512.
pub open spec fn padded_len(n: int) -> int {
    (n + 511) / 512 * 512
}

/// `s` with zeros up to a multiple of 512.
pub open spec fn padded(s: Seq<u8>) -> Seq<u8> {
    s + backend::zeros((padded_len(s.len() as int) - s.len()) as nat)
}

/// Bytes of header and bitmaps for `num_pages` pages.
pub open spec fn image_len(num_pages: int) -> int {
    HEADER_SIZE + 2 * bitmap::bytes_for(num_pages)
}

/// Why stored metadata is not used.
#[derive(Debug, Clone, Copy, PartialEq, Eq, Structural)]
pub enum Reinit {
    /// There is none yet.
    Fresh,
    /// The file is too short.
    Truncated,
    /// The magic is not there.
    BadMagic,
    /// Version, page size or device size differ.
    Mismatch,
}

/// What stored metadata `s` says about a cache of `num_pages` pages: its two
/// bitmaps, or why it is not used.
pub open spec fn stored(s: Seq<u8>, page_size: u64, dev_size: u64, num_pages: u64) -> Result<
    (Seq<u8>, Seq<u8>),
    Reinit,
> {
    let n = bitmap::bytes_for(num_pages as int);
    if s.len() < image_len(num_pages as int) {
        Err(
            if s.len() == 0 {
                Reinit::Fresh
            } else {
                Reinit::Truncated
            },
        )
    } else if s.subrange(0, 8) != magic() {
        Err(Reinit::BadMagic)
    } else if wire::from_le(s.subrange(8, 12)) != VERSION || wire::from_le(s.subrange(16, 24))
        != page_size || wire::from_le(s.subrange(24, 32)) != dev_size {
        Err(Reinit::Mismatch)
    } else {
        Ok((s.subrange(64, 64 + n), s.subrange(64 + n, 64 + 2 * n)))
    }
}

/// The header has 64 bytes, each field in its place.
pub proof fn lemma_header(page_size: u64, dev_size: u64, num_pages: u64)
    ensures
        header(page_size, dev_size, num_pages).len() == 64,
        header(page_size, dev_size, num_pages).subrange(0, 8) == magic(),
        header(page_size, dev_size, num_pages).subrange(8, 12) == wire::le(VERSION as nat, 4),
        header(page_size, dev_size, num_pages).subrange(16, 24) == wire::le(page_size as nat, 8),
        header(page_size, dev_size, num_pages).subrange(24, 32) == wire::le(dev_size as nat, 8),
{
    wire::lemma_spans();
    wire::le_reads_back(VERSION as nat, 4);
    wire::le_reads_back(page_size as nat, 8);
    wire::le_reads_back(dev_size as nat, 8);
    wire::le_reads_back(num_pages as nat, 8);
    let h = header(page_size, dev_size, num_pages);
    assert(h.subrange(0, 8) =~= magic());
    assert(h.subrange(8, 12) =~= wire::le(VERSION as nat, 4));
    assert(h.subrange(16, 24) =~= wire::le(page_size as nat, 8));
    assert(h.subrange(24, 32) =~= wire::le(dev_size as nat, 8));
}

/// Metadata that was written is recovered: both bitmaps come back.
pub proof fn metadata_reads_back(
    page_size: u64,
    dev_size: u64,
    num_pages: u64,
    present: Seq<u8>,
    dirty: Seq<u8>,
)
    requires
        present.len() == bitmap::bytes_for(num_pages as int),
        dirty.len() == bitmap::bytes_for(num_pages as int),
    ensures
        stored(padded(image(page_size, dev_size, num_pages, present, dirty)), page_size, dev_size, num_pages)
            == Ok::<(Seq<u8>, Seq<u8>), Reinit>((present, dirty)),
        stored(image(page_size, dev_size, num_pages, present, dirty), page_size, dev_size, num_pages)
            == Ok::<(Seq<u8>, Seq<u8>), Reinit>((present, dirty)),
{
    lemma_header(page_size, dev_size, num_pages);
    wire::lemma_spans();
    wire::le_reads_back(VERSION as nat, 4);
    wire::le_reads_back(page_size as nat, 8);
    wire::le_reads_back(dev_size as nat, 8);
    let h = header(page_size, dev_size, num_pages);
    let n = bitmap::bytes_for(num_pages as int);
    let a = image(page_size, dev_size, num_pages, present, dirty);
    let b = padded(a);
    assert(a.subrange(0, 8) =~= h.subrange(0, 8));
    assert(a.subrange(8, 12) =~= h.subrange(8, 12));
    assert(a.subrange(16, 24) =~= h.subrange(16, 24));
    assert(a.subrange(24, 32) =~= h.subrange(24, 32));
    assert(a.subrange(64, 64 + n) =~= present);
    assert(a.subrange(64 + n, 64 + 2 * n) =~= dirty);
    assert(b.subrange(0, 8) =~= a.subrange(0, 8));
    assert(b.subrange(8, 12) =~= a.subrange(8, 12));
    assert(b.subrange(16, 24) =~= a.subrange(16, 24));
    assert(b.subrange(24, 32) =~= a.subrange(24, 32));
    assert(b.subrange(64, 64 + n) =~= present);
    assert(b.subrange(64 + n, 64 + 2 * n) =~= dirty);
}

/// The metadata header.
pub fn header_bytes(page_size: u64, dev_size: u64, num_pages: u64) -> (r: Vec<u8>)
    ensures
        r@ == header(page_size, dev_size, num_pages),
        r@.len() == 64,
{
    let mut h: Vec<u8> = vec![85u8, 66, 76, 75, 70, 67, 65, 67];
    assert(h@ =~= magic());
    wire::push_le(&mut h, VERSION, 4);
    let mut gap = pages::zero_bytes(4);
    h.append(&mut gap);
    wire::push_le(&mut h, page_size, 8);
    wire::push_le(&mut h, dev_size, 8);
    wire::push_le(&mut h, num_pages, 8);
    let mut tail = pages::zero_bytes(24);
    h.append(&mut tail);
    proof {
        lemma_header(page_size, dev_size, num_pages);
    }
    h
}

/// Byte `i` of the padded image.
pub fn image_byte(head: &Vec<u8>, present: &Vec<u8>, dirty: &Vec<u8>, i: u64) -> (r: u8)
    requires
        head@.len() + present@.len() + dirty@.len() <= u64::MAX,
    ensures
        r == (if i < (head@ + present@ + dirty@).len() {
            (head@ + present@ + dirty@)[i as int]
        } else {
            0
        }),
{
    let a: u64 = head.len() as u64;
    let b: u64 = a + present.len() as u64;
    let c: u64 = b + dirty.len() as u64;
    if i < a {
        head[i as usize]
    } else if i < b {
        present[(i - a) as usize]
    } else if i < c {
        dirty[(i - b) as usize]
    } else {
        0
    }
}

/// The bytes `at..at + n` of the padded image.
pub fn image_part(head: &Vec<u8>, present: &Vec<u8>, dirty: &Vec<u8>, at: u64, n: u64) -> (r: Vec<u8>)
    requires
        head@.len() + present@.len() + dirty@.len() <= u64::MAX,
        at + n <= padded((head@ + present@ + dirty@)).len(),
        at + n <= u64::MAX,
    ensures
        r@ == padded((head@ + present@ + dirty@)).subrange(at as int, at + n),
{
    let mut out: Vec<u8> = Vec::new();
    let mut i: u64 = 0;
    while i < n
        invariant
            i <= n,
            head@.len() + present@.len() + dirty@.len() <= u64::MAX,
            at + n <= padded((head@ + present@ + dirty@)).len(),
            at + n <= u64::MAX,
            out@ == padded((head@ + present@ + dirty@)).subrange(at as int, at + i),
        decreases n - i,
    {
        out.push(image_byte(head, present, dirty, at + i));
        i = i + 1;
        assert(out@ =~= padded((head@ + present@ + dirty@)).subrange(at as int, at + i));
    }
    out
}

/// Read the bitmaps of a cache off its stored metadata.
pub fn load_meta(s: &Vec<u8>, page_size: u64, dev_size: u64, num_pages: u64) -> (r: Result<
    (Vec<u8>, Vec<u8>),
    Reinit,
>)
    ensures
        match r {
            Ok((p, d)) => stored(s@, page_size, dev_size, num_pages) == Ok::<
                (Seq<u8>, Seq<u8>),
                Reinit,
            >((p@, d@)),
            Err(e) => stored(s@, page_size, dev_size, num_pages) == Err::<(Seq<u8>, Seq<u8>), Reinit>(e),
        },
{
    let n: u64 = bitmap::bitmap_bytes(num_pages);
    let need: u64 = HEADER_SIZE + 2 * n;
    if (s.len() as u64) < need {
        if s.len() == 0 {
            return Err(Reinit::Fresh);
        }
        return Err(Reinit::Truncated);
    }
    let want: Vec<u8> = vec![85u8, 66, 76, 75, 70, 67, 65, 67];
    assert(want@ =~= magic());
    let mut i: usize = 0;
    while i < 8
        invariant
            i <= 8,
            s@.len() >= image_len(num_pages as int),
            want@ == magic(),
            forall|j: int| 0 <= j < i ==> s@[j] == magic()[j],
        decreases 8 - i,
    {
        if s[i] != want[i] {
            assert(s@.subrange(0, 8)[i as int] != magic()[i as int]);
            return Err(Reinit::BadMagic);
        }
        i = i + 1;
    }
    assert(s@.subrange(0, 8) =~= magic());
    let version = wire::get_le(s, 8, 4);
    let stored_page_size = wire::get_le(s, 16, 8);
    let stored_dev_size = wire::get_le(s, 24, 8);
    if version != VERSION || stored_page_size != page_size || stored_dev_size != dev_size {
        return Err(Reinit::Mismatch);
    }
    let present = pages::copy_range(s, 64, (64 + n) as usize);
    let dirty = pages::copy_range(s, (64 + n) as usize, (64 + 2 * n) as usize);
    Ok((present, dirty))
}

/// The header, byte for byte: `UBLKFCAC`, a version of 1, the page size, the device
/// size and the number of pages, little-endian, and zeros in between.
pub proof fn a_header_is_laid_out_as_written(page_size: u64, dev_size: u64, num_pages: u64)
    ensures
        header(page_size, dev_size, num_pages).len() == 64,
        header(page_size, dev_size, num_pages).subrange(0, 8) == seq![
            0x55u8,
            0x42u8,
            0x4cu8,
            0x4bu8,
            0x46u8,
            0x43u8,
            0x41u8,
            0x43u8,
        ],
        wire::from_le(header(page_size, dev_size, num_pages).subrange(8, 12)) == 1,
        wire::from_le(header(page_size, dev_size, num_pages).subrange(16, 24)) == page_size,
        wire::from_le(header(page_size, dev_size, num_pages).subrange(24, 32)) == dev_size,
        wire::from_le(header(page_size, dev_size, num_pages).subrange(32, 40)) == num_pages,
        forall|i: int|
            12 <= i < 16 || 40 <= i < 64 ==> #[trigger] header(page_size, dev_size, num_pages)[i]
                == 0,
{
    lemma_header(page_size, dev_size, num_pages);
    wire::lemma_spans();
    wire::le_reads_back(VERSION as nat, 4);
    wire::le_reads_back(page_size as nat, 8);
    wire::le_reads_back(dev_size as nat, 8);
    wire::le_reads_back(num_pages as nat, 8);
    let h = header(page_size, dev_size, num_pages);
    assert(h.subrange(32, 40) =~= wire::le(num_pages as nat, 8));
}

/// The image of a cache is its header, the present pages and the dirty pages; it is
/// kept in whole sectors, filled with zeros.
pub proof fn an_image_is_kept_in_whole_sectors(s: Seq<u8>)
    ensures
        padded(s).len() % 512 == 0,
        s.len() <= padded(s).len() < s.len() + 512,
        padded(s).take(s.len() as int) == s,
        forall|i: int| s.len() <= i < padded(s).len() ==> #[trigger] padded(s)[i] == 0,
{
    assert(padded(s).take(s.len() as int) =~= s);
}

/// Metadata of a cache with another page size or another device size is not used,
/// nor is a short file or a file that is something else.
pub proof fn metadata_of_another_cache_is_not_used(
    s: Seq<u8>,
    page_size: u64,
    dev_size: u64,
    num_pages: u64,
)
    ensures
        s.len() == 0 ==> stored(s, page_size, dev_size, num_pages) == Err::<
            (Seq<u8>, Seq<u8>),
            _,
        >(Reinit::Fresh),
        0 < s.len() < 64 ==> stored(s, page_size, dev_size, num_pages) == Err::<
            (Seq<u8>, Seq<u8>),
            _,
        >(Reinit::Truncated),
        stored(s, page_size, dev_size, num_pages) matches Ok((present, dirty)) ==> {
            &&& s.len() >= 64 + present.len() + dirty.len()
            &&& 8 * present.len() >= num_pages
            &&& dirty.len() == present.len()
            &&& s.subrange(0, 8) == seq![
                0x55u8,
                0x42u8,
                0x4cu8,
                0x4bu8,
                0x46u8,
                0x43u8,
                0x41u8,
                0x43u8,
            ]
            &&& wire::from_le(s.subrange(8, 12)) == 1
            &&& wire::from_le(s.subrange(16, 24)) == page_size
            &&& wire::from_le(s.subrange(24, 32)) == dev_size
            &&& present == s.subrange(64, 64 + present.len() as int)
            &&& dirty == s.subrange(
                64 + present.len() as int,
                64 + 2 * present.len() as int,
            )
        },
{
}

} // verus!

//! Bitmaps of pages, one bit per page.

use vstd::prelude::*;

verus! {

/// Bit `i` of `bm`; a bit beyond the end is not set.
pub open spec fn bit(bm: Seq<u8>, i: int) -> bool {
    0 <= i && i / 8 < bm.len() && bm[i / 8] & (1u8 << ((i % 8) as u8)) != 0
}

/// The bit of page `i` in its byte of a bitmap.
pub open spec fn bit_in(x: u8, i: int) -> bool {
    x & (1u8 << ((i % 8) as u8)) != 0
}

/// How many bytes hold `n` bits.
pub open spec fn bytes_for(n: int) -> int {
    (n + 7) / 8
}

/// How many bytes hold `num_pages` bits.
pub fn bitmap_bytes(num_pages: u64) -> (r: u64)
    ensures
        r == bytes_for(num_pages as int),
{
    if num_pages % 8 == 0 {
        num_pages / 8
    } else {
        num_pages / 8 + 1
    }
}

/// Bit `idx` of `bitmap`.
pub fn bit_get(bitmap: &Vec<u8>, idx: u64) -> (r: bool)
    ensures
        r == bit(bitmap@, idx as int),
{
    let byte: u64 = idx / 8;
    let k: u8 = (idx % 8) as u8;
    byte < bitmap.len() as u64 && bitmap[byte as usize] & (1u8 << k) != 0
}

/// Set bit `idx` of `bitmap` to `value`.
pub fn bit_set(bitmap: &mut Vec<u8>, idx: u64, value: bool)
    requires
        idx / 8 < old(bitmap)@.len(),
    ensures
        final(bitmap)@.len() == old(bitmap)@.len(),
        forall|i: int|
            0 <= i ==> #[trigger] bit(final(bitmap)@, i) == (if i == idx {
                value
            } else {
                bit(old(bitmap)@, i)
            }),
        forall|b: int|
            0 <= b < old(bitmap)@.len() && b != idx as int / 8 ==> #[trigger] final(bitmap)@[b] == old(bitmap)@[b],
{
    assert(bitmap.len() == bitmap@.len());
    let byte: usize = (idx / 8) as usize;
    let k: u8 = (idx % 8) as u8;
    let was: u8 = bitmap[byte];
    let now: u8 = if value {
        was | (1u8 << k)
    } else {
        was & !(1u8 << k)
    };
    bitmap.set(byte, now);
    proof {
        assert forall|i: int| 0 <= i implies #[trigger] bit(bitmap@, i) == (if i == idx {
            value
        } else {
            bit(old(bitmap)@, i)
        }) by {
            if i / 8 == byte {
                let j = (i % 8) as u8;
                assert(k < 8 && j < 8);
                if value {
                    assert(((was | (1u8 << k)) & (1u8 << j) != 0) == (j == k || was & (1u8 << j) != 0))
                        by (bit_vector)
                        requires
                            k < 8,
                            j < 8,
                    ;
                } else {
                    assert(((was & !(1u8 << k)) & (1u8 << j) != 0) == (j != k && was & (1u8 << j) != 0))
                        by (bit_vector)
                        requires
                            k < 8,
                            j < 8,
                    ;
                }
            }
        }
    }
}

/// A bitmap of zero bytes has no bit set.
pub proof fn lemma_no_bits(bm: Seq<u8>)
    requires
        forall|b: int| 0 <= b < bm.len() ==> #[trigger] bm[b] == 0,
    ensures
        forall|i: int| !#[trigger] bit(bm, i),
{
    assert forall|i: int| !#[trigger] bit(bm, i) by {
        let k = (i % 8) as u8;
        if 0 <= i && i / 8 < bm.len() {
            assert(bm[i / 8] == 0);
            assert(0u8 & (1u8 << k) == 0) by (bit_vector);
        }
    }
}

/// How many of the first `n` bits are set.
pub open spec fn count(bm: Seq<u8>, n: int) -> nat
    decreases n,
{
    if n <= 0 {
        0
    } else {
        count(bm, n - 1) + if bit(bm, n - 1) {
            1nat
        } else {
            0nat
        }
    }
}

/// How many of the first `n` bits are set.
pub fn count_bits(bitmap: &Vec<u8>, n: u64) -> (r: u64)
    ensures
        r == count(bitmap@, n as int),
        r <= n,
{
    let mut c: u64 = 0;
    let mut i: u64 = 0;
    while i < n
        invariant
            i <= n,
            c <= i,
            c == count(bitmap@, i as int),
        decreases n - i,
    {
        if bit_get(bitmap, i) {
            c = c + 1;
        }
        i = i + 1;
    }
    c
}

/// The bits of a byte, the lowest first, are its binary digits.
pub proof fn the_bits_of_a_byte_are_its_binary_digits(bm: Seq<u8>, b: int)
    requires
        0 <= b < bm.len(),
    ensures
        bm[b] == (if bit(bm, 8 * b) {
            1int
        } else {
            0
        }) + (if bit(bm, 8 * b + 1) {
            2int
        } else {
            0
        }) + (if bit(bm, 8 * b + 2) {
            4int
        } else {
            0
        }) + (if bit(bm, 8 * b + 3) {
            8int
        } else {
            0
        }) + (if bit(bm, 8 * b + 4) {
            16int
        } else {
            0
        }) + (if bit(bm, 8 * b + 5) {
            32int
        } else {
            0
        }) + (if bit(bm, 8 * b + 6) {
            64int
        } else {
            0
        }) + (if bit(bm, 8 * b + 7) {
            128int
        } else {
            0
        }),
        forall|i: int| i >= 8 * bm.len() || i < 0 ==> !#[trigger] bit(bm, i),
{
    let x = bm[b];
    assert((8 * b) % 8 == 0 && (8 * b + 1) % 8 == 1 && (8 * b + 2) % 8 == 2 && (8 * b + 3) % 8 == 3
        && (8 * b + 4) % 8 == 4 && (8 * b + 5) % 8 == 5 && (8 * b + 6) % 8 == 6 && (8 * b + 7) % 8
        == 7);
    assert(x == (if x & (1u8 << 0u8) != 0 {
        1u8
    } else {
        0u8
    }) + (if x & (1u8 << 1u8) != 0 {
        2u8
    } else {
        0u8
    }) + (if x & (1u8 << 2u8) != 0 {
        4u8
    } else {
        0u8
    }) + (if x & (1u8 << 3u8) != 0 {
        8u8
    } else {
        0u8
    }) + (if x & (1u8 << 4u8) != 0 {
        16u8
    } else {
        0u8
    }) + (if x & (1u8 << 5u8) != 0 {
        32u8
    } else {
        0u8
    }) + (if x & (1u8 << 6u8) != 0 {
        64u8
    } else {
        0u8
    }) + (if x & (1u8 << 7u8) != 0 {
        128u8
    } else {
        0u8
    })) by (bit_vector);
}

/// The fewest bytes are used that hold the bits.
pub proof fn a_bitmap_is_no_longer_than_it_must_be(n: int)
    requires
        n >= 0,
    ensures
        8 * bytes_for(n) >= n,
        8 * bytes_for(n) < n + 8,
{
}

/// One more bit counts when it is set.
pub proof fn bits_are_counted_one_by_one(bm: Seq<u8>, n: int)
    requires
        n >= 0,
    ensures
        count(bm, 0) == 0,
        bit(bm, n) ==> count(bm, n + 1) == count(bm, n) + 1,
        !bit(bm, n) ==> count(bm, n + 1) == count(bm, n),
        count(bm, n) <= n,
    decreases n,
{
    if n > 0 {
        bits_are_counted_one_by_one(bm, n - 1);
    }
}

} // verus!

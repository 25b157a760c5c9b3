//! Page arithmetic and byte moves shared by the page-based backends.

use vstd::arithmetic::div_mod::{lemma_fundamental_div_mod, lemma_fundamental_div_mod_converse};
use vstd::prelude::*;

use crate::backend;

verus! {

/// Byte `j` of page `p` lies in page `p`, at `j`.
pub proof fn lemma_in_page(page_size: int, p: int, j: int)
    requires
        page_size > 0,
        0 <= p,
        0 <= j < page_size,
    ensures
        (p * page_size + j) / page_size == p,
        (p * page_size + j) % page_size == j,
        0 <= p * page_size,
{
    lemma_fundamental_div_mod_converse(p * page_size + j, page_size, p, j);
    assert(0 <= p * page_size) by (nonlinear_arith)
        requires
            0 <= p,
            page_size > 0,
    ;
}

/// Every offset is some byte of some page.
pub proof fn lemma_split(page_size: int, i: int)
    requires
        page_size > 0,
        0 <= i,
    ensures
        i == (i / page_size) * page_size + i % page_size,
        0 <= i % page_size < page_size,
        0 <= i / page_size,
        0 <= (i / page_size) * page_size <= i,
{
    lemma_fundamental_div_mod(i, page_size);
    assert((i / page_size) * page_size == page_size * (i / page_size)) by (nonlinear_arith);
    assert(0 <= i / page_size) by (nonlinear_arith)
        requires
            0 <= i,
            page_size > 0,
    ;
    assert(0 <= (i / page_size) * page_size) by (nonlinear_arith)
        requires
            0 <= i / page_size,
            page_size > 0,
    ;
}

/// The bytes from `i` up to the end of its page lie in that page.
pub proof fn lemma_same_page(page_size: int, i: int, k: int)
    requires
        page_size > 0,
        0 <= i,
        0 <= k < page_size - i % page_size,
    ensures
        (i + k) / page_size == i / page_size,
        (i + k) % page_size == i % page_size + k,
{
    lemma_split(page_size, i);
    lemma_in_page(page_size, i / page_size, i % page_size + k);
}

/// Pages keep their order.
pub proof fn lemma_page_order(page_size: int, p: int, q: int)
    requires
        page_size > 0,
        0 <= p < q,
    ensures
        p * page_size + page_size <= q * page_size,
{
    assert(p * page_size + page_size <= q * page_size) by (nonlinear_arith)
        requires
            page_size > 0,
            0 <= p < q,
    ;
}

/// A page of whole 512-byte blocks begins on a block.
pub proof fn lemma_page_aligned(page_size: int, p: int)
    requires
        page_size % 512 == 0,
    ensures
        (p * page_size) % 512 == 0,
{
    let k = page_size / 512;
    assert(p * page_size == 512 * (p * k)) by (nonlinear_arith)
        requires
            page_size == 512 * k,
    ;
}

/// A block of the device begins on a block of its page.
pub proof fn lemma_piece_aligned(page_size: int, at: int)
    requires
        page_size > 0,
        page_size % 512 == 0,
        0 <= at,
        at % 512 == 0,
    ensures
        (at % page_size) % 512 == 0,
{
    lemma_split(page_size, at);
    lemma_page_aligned(page_size, at / page_size);
}

/// Page `p` holds some byte of `[offset, offset + len)`.
pub open spec fn covers(page_size: int, offset: int, len: int, p: int) -> bool {
    0 < len && offset / page_size <= p <= (offset + len - 1) / page_size
}

/// How far a request for `[offset, offset + len)`, of which `pos` bytes are done, goes on
/// inside the page that comes next.
pub open spec fn piece(page_size: int, offset: int, len: int, pos: int) -> int {
    let left = page_size - (offset + pos) % page_size;
    if left < len - pos {
        left
    } else {
        len - pos
    }
}

/// The number of pages that hold some byte of `[offset, offset + len)`.
pub open spec fn page_span(page_size: int, offset: int, len: int) -> int {
    if len <= 0 {
        0
    } else {
        (offset + len - 1) / page_size - offset / page_size + 1
    }
}

/// The pages of a range that ends on a page boundary, or is empty, come before the
/// page that follows it.
pub proof fn lemma_last_before(page_size: int, offset: int, len: int)
    requires
        page_size > 0,
        0 <= offset,
        0 <= len,
        len == 0 || (offset + len) % page_size == 0,
    ensures
        forall|p: int| #[trigger] covers(page_size, offset, len, p) ==> p < (offset + len) / page_size,
{
    if len > 0 {
        let end = offset + len;
        lemma_split(page_size, end);
        lemma_split(page_size, end - 1);
        if (end - 1) / page_size >= end / page_size {
            assert((end - 1) / page_size * page_size >= end / page_size * page_size)
                by (nonlinear_arith)
                requires
                    (end - 1) / page_size >= end / page_size,
                    page_size > 0,
            ;
        }
    }
}

/// A range that grows by bytes from its end on takes in the page of the first of
/// them, and no other unless it goes past that page.
pub proof fn lemma_next_page(page_size: int, offset: int, pos: int, more: int)
    requires
        page_size > 0,
        0 <= offset,
        0 <= pos,
        0 < more,
    ensures
        ({
            let p = (offset + pos) / page_size;
            &&& covers(page_size, offset, pos + more, p)
            &&& forall|q: int| #[trigger]
                covers(page_size, offset, pos, q) ==> covers(page_size, offset, pos + more, q)
            &&& page_span(page_size, offset, pos) <= page_span(page_size, offset, pos + more)
            &&& (offset + pos) % page_size + more <= page_size ==> forall|q: int| #[trigger]
                covers(page_size, offset, pos + more, q) ==> q == p || covers(page_size, offset, pos, q)
            &&& pos == 0 || (offset + pos) % page_size == 0 ==> page_span(page_size, offset, pos)
                < page_span(page_size, offset, pos + more)
        }),
{
    let at = offset + pos;
    let p = at / page_size;
    lemma_split(page_size, at);
    vstd::arithmetic::div_mod::lemma_div_is_ordered(offset, at, page_size);
    vstd::arithmetic::div_mod::lemma_div_is_ordered(at, at + more - 1, page_size);
    if pos > 0 {
        vstd::arithmetic::div_mod::lemma_div_is_ordered(at - 1, at, page_size);
        if at % page_size > 0 {
            lemma_in_page(page_size, p, at % page_size - 1);
        } else {
            if p == 0 {
                assert(p * page_size == 0);
            }
            assert((p - 1) * page_size == p * page_size - page_size) by (nonlinear_arith);
            lemma_in_page(page_size, p - 1, page_size - 1);
        }
    }
    if at % page_size + more <= page_size {
        lemma_in_page(page_size, p, at % page_size + more - 1);
    }
}

/// Copy `src[from..from + n]` over `dst` at `at`.
pub fn put_bytes(dst: &mut Vec<u8>, at: usize, src: &Vec<u8>, from: usize, n: usize)
    requires
        at + n <= old(dst)@.len(),
        from + n <= src@.len(),
    ensures
        final(dst)@ == backend::splice(
            old(dst)@,
            at as int,
            src@.subrange(from as int, from + n),
        ),
{
    assert(dst.len() == dst@.len() && src.len() == src@.len());
    let ghost before = dst@;
    let ghost part = src@.subrange(from as int, from + n);
    let mut i: usize = 0;
    while i < n
        invariant
            i <= n,
            at + n <= before.len(),
            from + n <= src@.len(),
            before.len() <= usize::MAX,
            src@.len() <= usize::MAX,
            dst@.len() == before.len(),
            part == src@.subrange(from as int, from + n),
            dst@ == backend::splice(before, at as int, part.take(i as int)),
        decreases n - i,
    {
        dst.set(at + i, src[from + i]);
        i = i + 1;
        assert(dst@ =~= backend::splice(before, at as int, part.take(i as int)));
    }
    assert(part.take(n as int) == part);
}

/// Zero `n` bytes of `dst` at `at`.
pub fn put_zeros(dst: &mut Vec<u8>, at: usize, n: usize)
    requires
        at + n <= old(dst)@.len(),
    ensures
        final(dst)@ == backend::splice(old(dst)@, at as int, backend::zeros(n as nat)),
{
    assert(dst.len() == dst@.len());
    let ghost before = dst@;
    let mut i: usize = 0;
    while i < n
        invariant
            i <= n,
            at + n <= before.len(),
            before.len() <= usize::MAX,
            dst@.len() == before.len(),
            dst@ == backend::splice(before, at as int, backend::zeros(i as nat)),
        decreases n - i,
    {
        dst.set(at + i, 0);
        i = i + 1;
        assert(dst@ =~= backend::splice(before, at as int, backend::zeros(i as nat)));
    }
}

/// Append `src[from..to]` to `dst`.
pub fn append_range(dst: &mut Vec<u8>, src: &Vec<u8>, from: usize, to: usize)
    requires
        from <= to <= src@.len(),
    ensures
        final(dst)@ == old(dst)@ + src@.subrange(from as int, to as int),
{
    let ghost before = dst@;
    let mut i: usize = from;
    while i < to
        invariant
            from <= i <= to <= src@.len(),
            dst@ == before + src@.subrange(from as int, i as int),
        decreases to - i,
    {
        dst.push(src[i]);
        i = i + 1;
        assert(dst@ =~= before + src@.subrange(from as int, i as int));
    }
}

/// `src[from..to]`.
pub fn copy_range(src: &Vec<u8>, from: usize, to: usize) -> (r: Vec<u8>)
    requires
        from <= to <= src@.len(),
    ensures
        r@ == src@.subrange(from as int, to as int),
{
    let mut r: Vec<u8> = Vec::new();
    append_range(&mut r, src, from, to);
    assert(r@ =~= src@.subrange(from as int, to as int));
    r
}

/// `n` zero bytes.
pub fn zero_bytes(n: usize) -> (r: Vec<u8>)
    ensures
        r@ == backend::zeros(n as nat),
{
    vec![0u8; n]
}

/// Whether every byte is zero.
pub fn all_zero(v: &Vec<u8>) -> (r: bool)
    ensures
        r == (v@ == backend::zeros(v@.len())),
{
    let mut i: usize = 0;
    while i < v.len()
        invariant
            i <= v@.len(),
            forall|j: int| 0 <= j < i ==> v@[j] == 0,
        decreases v@.len() - i,
    {
        if v[i] != 0 {
            assert(v@[i as int] != backend::zeros(v@.len())[i as int]);
            return false;
        }
        i = i + 1;
    }
    assert(v@ =~= backend::zeros(v@.len()));
    true
}

/// Writing the rest of a run after its first part is writing the whole run.
pub proof fn lemma_splice_grow(s: Seq<u8>, at: int, d: Seq<u8>, done: int, n: int)
    requires
        0 <= at,
        0 <= done,
        0 <= n,
        done + n <= d.len(),
        at + d.len() <= s.len(),
    ensures
        backend::splice(backend::splice(s, at, d.take(done)), at + done, d.subrange(done, done + n))
            == backend::splice(s, at, d.take(done + n)),
{
    assert(backend::splice(
        backend::splice(s, at, d.take(done)),
        at + done,
        d.subrange(done, done + n),
    ) =~= backend::splice(s, at, d.take(done + n)));
}

/// A page is covered exactly when a byte of the range lies in it.
pub proof fn a_covered_page_holds_a_byte_of_the_range(
    page_size: int,
    offset: int,
    len: int,
    p: int,
    i: int,
)
    requires
        page_size > 0,
        0 <= offset,
    ensures
        offset <= i < offset + len && i / page_size == p ==> covers(page_size, offset, len, p),
        covers(page_size, offset, len, p) ==> exists|b: int|
            offset <= b < offset + len && #[trigger] (b / page_size) == p,
{
    if offset <= i < offset + len && i / page_size == p {
        vstd::arithmetic::div_mod::lemma_div_is_ordered(offset, i, page_size);
        vstd::arithmetic::div_mod::lemma_div_is_ordered(i, offset + len - 1, page_size);
    }
    if covers(page_size, offset, len, p) {
        let first = offset / page_size;
        let last = (offset + len - 1) / page_size;
        if p == first {
            assert(offset / page_size == p);
        } else {
            lemma_split(page_size, offset);
            lemma_split(page_size, offset + len - 1);
            lemma_page_order(page_size, first, p);
            if p < last {
                lemma_page_order(page_size, p, last);
            }
            lemma_in_page(page_size, p, 0);
            assert((p * page_size + 0) / page_size == p);
            assert(offset <= p * page_size < offset + len);
            assert((p * page_size) / page_size == p);
        }
    }
}

/// The next piece of a request is never empty, stays inside its page and inside the
/// request, and ends at the end of one of them.
pub proof fn a_piece_ends_with_its_page_or_its_request(
    page_size: int,
    offset: int,
    len: int,
    pos: int,
)
    requires
        page_size > 0,
        0 <= offset,
        0 <= pos < len,
    ensures
        0 < piece(page_size, offset, len, pos) <= len - pos,
        (offset + pos) % page_size + piece(page_size, offset, len, pos) <= page_size,
        piece(page_size, offset, len, pos) == len - pos || (offset + pos) % page_size + piece(
            page_size,
            offset,
            len,
            pos,
        ) == page_size,
{
    lemma_split(page_size, offset + pos);
}

/// As many pages are spanned as are covered: those from the first to the last.
pub proof fn a_span_counts_the_covered_pages(page_size: int, offset: int, len: int, p: int)
    requires
        page_size > 0,
        0 <= offset,
        0 < len,
    ensures
        covers(page_size, offset, len, p) <==> offset / page_size <= p < offset / page_size
            + page_span(page_size, offset, len),
        page_span(page_size, offset, len) >= 1,
        page_span(page_size, offset, 0) == 0,
{
    vstd::arithmetic::div_mod::lemma_div_is_ordered(offset, offset + len - 1, page_size);
}

} // verus!

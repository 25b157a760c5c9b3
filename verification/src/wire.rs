//! Fixed-width integers as bytes, in both byte orders.

use vstd::prelude::*;

verus! {

/// 256 to the power of `w`: one more than the largest number of `w` bytes.
pub open spec fn span(w: nat) -> nat
    decreases w,
{
    if w == 0 {
        1
    } else {
        256 * span((w - 1) as nat)
    }
}

/// `n` in `w` bytes, the lowest first.
pub open spec fn le(n: nat, w: nat) -> Seq<u8>
    decreases w,
{
    if w == 0 {
        Seq::empty()
    } else {
        seq![(n % 256) as u8] + le(n / 256, (w - 1) as nat)
    }
}

/// The number that `s` holds, the lowest byte first.
pub open spec fn from_le(s: Seq<u8>) -> nat
    decreases s.len(),
{
    if s.len() == 0 {
        0
    } else {
        s[0] as nat + 256 * from_le(s.skip(1))
    }
}

/// `n` in `w` bytes, the highest first.
pub open spec fn be(n: nat, w: nat) -> Seq<u8>
    decreases w,
{
    if w == 0 {
        Seq::empty()
    } else {
        be(n / 256, (w - 1) as nat).push((n % 256) as u8)
    }
}

/// The number that `s` holds, the highest byte first.
pub open spec fn from_be(s: Seq<u8>) -> nat
    decreases s.len(),
{
    if s.len() == 0 {
        0
    } else {
        from_be(s.drop_last()) * 256 + s.last() as nat
    }
}

/// A number written lowest byte first is read back.
pub proof fn le_reads_back(n: nat, w: nat)
    requires
        n < span(w),
    ensures
        le(n, w).len() == w,
        from_le(le(n, w)) == n,
    decreases w,
{
    if w > 0 {
        le_reads_back(n / 256, (w - 1) as nat);
        assert(le(n, w).skip(1) =~= le(n / 256, (w - 1) as nat));
    }
}

/// A number written highest byte first is read back.
pub proof fn be_reads_back(n: nat, w: nat)
    requires
        n < span(w),
    ensures
        be(n, w).len() == w,
        from_be(be(n, w)) == n,
    decreases w,
{
    if w > 0 {
        be_reads_back(n / 256, (w - 1) as nat);
        assert(be(n, w).drop_last() =~= be(n / 256, (w - 1) as nat));
    }
}

/// Bytes that hold `n`, lowest first, are the ones that `n` is written as.
pub proof fn lemma_le_unique(s: Seq<u8>)
    ensures
        s == le(from_le(s), s.len()),
    decreases s.len(),
{
    if s.len() > 0 {
        lemma_le_unique(s.skip(1));
        let n = from_le(s);
        assert(n % 256 == s[0] as nat && n / 256 == from_le(s.skip(1)));
        assert(s =~= seq![s[0]] + s.skip(1));
    } else {
        assert(s =~= Seq::<u8>::empty());
    }
}

/// `w` bytes hold less than `span(w)`.
pub proof fn lemma_from_be_bound(s: Seq<u8>)
    ensures
        from_be(s) < span(s.len()),
    decreases s.len(),
{
    if s.len() > 0 {
        lemma_from_be_bound(s.drop_last());
    }
}

/// `w` bytes hold less than `span(w)`.
pub proof fn lemma_from_le_bound(s: Seq<u8>)
    ensures
        from_le(s) < span(s.len()),
    decreases s.len(),
{
    if s.len() > 0 {
        lemma_from_le_bound(s.skip(1));
    }
}

/// The widths in use.
pub proof fn lemma_spans()
    ensures
        span(2) == 0x1_0000,
        span(4) == 0x1_0000_0000,
        span(8) == 0x1_0000_0000_0000_0000,
        forall|w: nat| w <= 8 ==> #[trigger] span(w) <= 0x1_0000_0000_0000_0000,
{
    reveal_with_fuel(span, 9);
    assert forall|w: nat| w <= 8 implies #[trigger] span(w) <= 0x1_0000_0000_0000_0000 by {
        assert(w == 0 || w == 1 || w == 2 || w == 3 || w == 4 || w == 5 || w == 6 || w == 7 || w == 8);
    }
}

/// Append `n` in `w` bytes, the lowest first.
pub fn push_le(out: &mut Vec<u8>, n: u64, w: usize)
    ensures
        final(out)@ == old(out)@ + le(n as nat, w as nat),
    decreases w,
{
    if w > 0 {
        let ghost before = out@;
        out.push((n % 256) as u8);
        push_le(out, n / 256, w - 1);
        assert(out@ =~= before + le(n as nat, w as nat));
    }
}

/// Append `n` in `w` bytes, the highest first.
pub fn push_be(out: &mut Vec<u8>, n: u64, w: usize)
    ensures
        final(out)@ == old(out)@ + be(n as nat, w as nat),
    decreases w,
{
    if w > 0 {
        let ghost before = out@;
        push_be(out, n / 256, w - 1);
        out.push((n % 256) as u8);
        assert(out@ =~= before + be(n as nat, w as nat));
    }
}

/// The number in the `w` bytes of `v` at `at`, the highest first.
pub fn get_be(v: &Vec<u8>, at: usize, w: usize) -> (r: u64)
    requires
        at + w <= v@.len(),
        w <= 8,
    ensures
        r == from_be(v@.subrange(at as int, at + w)),
        r < span(w as nat),
{
    let mut acc: u64 = 0;
    let mut i: usize = 0;
    proof {
        lemma_spans();
        assert(from_be(v@.subrange(at as int, at as int)) == 0);
    }
    assert(v.len() == v@.len());
    while i < w
        invariant
            i <= w <= 8,
            at + w <= v.len(),
            acc == from_be(v@.subrange(at as int, at + i)),
            acc < span(i as nat),
        decreases w - i,
    {
        proof {
            lemma_spans();
            let s = v@.subrange(at as int, at + i + 1);
            assert(s.drop_last() =~= v@.subrange(at as int, at + i));
            assert(s.last() == v@[at + i]);
            assert(span((i + 1) as nat) == 256 * span(i as nat));
            assert(span((i + 1) as nat) <= 0x1_0000_0000_0000_0000);
        }
        acc = acc * 256 + v[at + i] as u64;
        i = i + 1;
    }
    acc
}

/// The number in the `w` bytes of `v` at `at`, the lowest first.
pub fn get_le(v: &Vec<u8>, at: usize, w: usize) -> (r: u64)
    requires
        at + w <= v@.len(),
        w <= 8,
    ensures
        r == from_le(v@.subrange(at as int, at + w)),
        r < span(w as nat),
    decreases w,
{
    if w == 0 {
        return 0;
    }
    assert(v.len() == v@.len());
    let rest = get_le(v, at + 1, w - 1);
    proof {
        lemma_spans();
        let s = v@.subrange(at as int, at + w);
        assert(s.skip(1) =~= v@.subrange(at + 1, at + w));
        assert(span(w as nat) == 256 * span((w - 1) as nat));
        assert(span(w as nat) <= 0x1_0000_0000_0000_0000);
    }
    v[at] as u64 + 256 * rest
}

/// The bytes of a number, one by one: the highest comes first in network order, and
/// last in the other.
pub proof fn network_order_puts_the_highest_byte_first(n: nat)
    ensures
        be(n, 1) == seq![(n % 256) as u8],
        be(n, 2) == seq![(n / 256 % 256) as u8, (n % 256) as u8],
        be(n, 4) == seq![
            (n / 16777216 % 256) as u8,
            (n / 65536 % 256) as u8,
            (n / 256 % 256) as u8,
            (n % 256) as u8,
        ],
        le(n, 4) == seq![
            (n % 256) as u8,
            (n / 256 % 256) as u8,
            (n / 65536 % 256) as u8,
            (n / 16777216 % 256) as u8,
        ],
        be(n, 8) == be(n / 4294967296, 4) + be(n, 4),
        le(n, 8) == le(n, 4) + le(n / 4294967296, 4),
{
    reveal_with_fuel(be, 9);
    reveal_with_fuel(le, 9);
    assert(n / 256 / 256 == n / 65536);
    assert(n / 65536 / 256 == n / 16777216);
    assert(n / 16777216 / 256 == n / 4294967296);
    let m = n / 4294967296;
    assert(be(n, 4) =~= seq![
        (n / 16777216 % 256) as u8,
        (n / 65536 % 256) as u8,
        (n / 256 % 256) as u8,
        (n % 256) as u8,
    ]);
    assert(be(m, 4) =~= seq![
        (m / 16777216 % 256) as u8,
        (m / 65536 % 256) as u8,
        (m / 256 % 256) as u8,
        (m % 256) as u8,
    ]) by {
        assert(m / 256 / 256 == m / 65536);
        assert(m / 65536 / 256 == m / 16777216);
    }
    assert(be(n, 2) =~= seq![(n / 256 % 256) as u8, (n % 256) as u8]);
    assert(be(n, 1) =~= seq![(n % 256) as u8]);
    assert(le(n, 4) =~= seq![
        (n % 256) as u8,
        (n / 256 % 256) as u8,
        (n / 65536 % 256) as u8,
        (n / 16777216 % 256) as u8,
    ]);
    assert(be(n, 8) =~= be(m, 4) + be(n, 4));
    assert(le(n, 8) =~= le(n, 4) + le(m, 4));
}


} // verus!

//! Text, seen as sequences of characters.
//!
//! Every rule of the library that reads or writes text (volume ids, metadata
//! records, registry files, URLs, XML bodies) is stated over `Seq<char>` with
//! the functions of this module, and computed by the executable functions
//! beside them.

use vstd::prelude::*;

verus! {

/// `String::push` appends one character at the end.
pub assume_specification[ String::push ](s: &mut String, c: char)
    ensures
        final(s)@ == old(s)@.push(c),
;

// ── Characters ──────────────────────────────────────────────────────────────

/// The characters of Unicode's `White_Space` property.
pub open spec fn is_space(c: char) -> bool {
    let n = c as u32;
    ||| 9 <= n <= 13
    ||| n == 32
    ||| n == 0x85
    ||| n == 0xa0
    ||| n == 0x1680
    ||| 0x2000 <= n <= 0x200a
    ||| n == 0x2028
    ||| n == 0x2029
    ||| n == 0x202f
    ||| n == 0x205f
    ||| n == 0x3000
}

/// An ASCII decimal digit.
pub open spec fn is_digit(c: char) -> bool {
    '0' <= c && c <= '9'
}

/// An ASCII letter or digit.
pub open spec fn is_alnum(c: char) -> bool {
    is_digit(c) || ('a' <= c && c <= 'z') || ('A' <= c && c <= 'Z')
}

/// ASCII lower case; every other character is left as it is.
pub open spec fn lower(c: char) -> char {
    if 'A' <= c && c <= 'Z' {
        (c as u32 + 32) as char
    } else {
        c
    }
}

/// Whether `c` is white space.
pub fn is_space_char(c: char) -> (r: bool)
    ensures
        r == is_space(c),
{
    let n: u32 = c as u32;
    (9 <= n && n <= 13) || n == 32 || n == 0x85 || n == 0xa0 || n == 0x1680
        || (0x2000 <= n && n <= 0x200a) || n == 0x2028 || n == 0x2029 || n == 0x202f
        || n == 0x205f || n == 0x3000
}

/// Whether `c` is an ASCII decimal digit.
pub fn is_digit_char(c: char) -> (r: bool)
    ensures
        r == is_digit(c),
{
    '0' <= c && c <= '9'
}

/// Whether `c` is an ASCII letter or digit.
pub fn is_alnum_char(c: char) -> (r: bool)
    ensures
        r == is_alnum(c),
{
    is_digit_char(c) || ('a' <= c && c <= 'z') || ('A' <= c && c <= 'Z')
}

/// The ASCII lower case of `c`.
pub fn lower_char(c: char) -> (r: char)
    ensures
        r == lower(c),
{
    if 'A' <= c && c <= 'Z' {
        let n: u8 = c as u8;
        (n + 32) as char
    } else {
        c
    }
}

// ── Conversions ─────────────────────────────────────────────────────────────

/// The texts that a sequence of strings holds.
pub open spec fn views(v: Seq<String>) -> Seq<Seq<char>> {
    v.map_values(|s: String| s@)
}

/// The text that an optional string holds.
pub open spec fn opt_view(o: Option<String>) -> Option<Seq<char>> {
    match o {
        Some(s) => Some(s@),
        None => None,
    }
}

/// The characters of `s`.
pub fn chars_of(s: &str) -> (v: Vec<char>)
    ensures
        v@ == s@,
{
    let mut v: Vec<char> = Vec::new();
    for c in it: s.chars()
        invariant
            it.seq() == s@,
            v@ == s@.take(it.index()),
    {
        v.push(c);
    }
    assert(s@.take(s@.len() as int) == s@);
    v
}

/// The characters `from..to` of `v` as a string.
pub fn slice_of(v: &Vec<char>, from: usize, to: usize) -> (r: String)
    requires
        from <= to <= v@.len(),
    ensures
        r@ == v@.subrange(from as int, to as int),
{
    let mut r = String::new();
    let mut i: usize = from;
    while i < to
        invariant
            from <= i <= to <= v@.len(),
            r@ == v@.subrange(from as int, i as int),
        decreases to - i,
    {
        r.push(v[i]);
        assert(v@.subrange(from as int, i + 1) == v@.subrange(from as int, i as int).push(v@[i as int]));
        i = i + 1;
    }
    r
}

/// Whether two texts are equal.
pub fn same(a: &str, b: &str) -> (r: bool)
    ensures
        r == (a@ == b@),
{
    a.to_owned() == b.to_owned()
}

/// `a` followed by `b`.
pub fn concat(a: &str, b: &str) -> (r: String)
    ensures
        r@ == a@ + b@,
{
    let mut r = a.to_owned();
    r.append(b);
    r
}

/// `a`, `b` and `c` in turn.
pub fn concat3(a: &str, b: &str, c: &str) -> (r: String)
    ensures
        r@ == a@ + b@ + c@,
{
    let mut r = a.to_owned();
    r.append(b);
    r.append(c);
    r
}

/// Append a copy of `s` to a list of texts.
pub fn put(v: &mut Vec<String>, s: &str)
    ensures
        views(final(v)@) == views(old(v)@).push(s@),
        final(v)@.len() == old(v)@.len() + 1,
{
    let ghost had = v@;
    v.push(s.to_owned());
    assert(views(v@) == views(had).push(s@));
}

/// Append copies of all of `more` to a list of texts.
pub fn put_all(v: &mut Vec<String>, more: &Vec<String>)
    ensures
        views(final(v)@) == views(old(v)@) + views(more@),
{
    let ghost had = views(v@);
    let mut i: usize = 0;
    assert(views(more@).take(0) == Seq::<Seq<char>>::empty());
    assert(views(v@) == had + views(more@).take(0));
    while i < more.len()
        invariant
            i <= more@.len(),
            views(v@) == had + views(more@).take(i as int),
        decreases more@.len() - i,
    {
        put(v, more[i].as_str());
        proof {
            let m = views(more@);
            assert(m[i as int] == more@[i as int]@);
            assert(m.take(i + 1) == m.take(i as int).push(m[i as int]));
        }
        i = i + 1;
    }
    assert(views(more@).take(more@.len() as int) == views(more@));
}

/// Whether `s` is among the texts of `v`.
pub fn among(v: &Vec<String>, s: &str) -> (r: bool)
    ensures
        r == views(v@).contains(s@),
{
    let mut i: usize = 0;
    while i < v.len()
        invariant
            i <= v@.len(),
            forall|j: int| 0 <= j < i ==> views(v@)[j] != s@,
        decreases v@.len() - i,
    {
        if same(v[i].as_str(), s) {
            assert(views(v@)[i as int] == s@);
            return true;
        }
        i = i + 1;
    }
    false
}

/// A copy of an optional string.
pub fn clone_opt(o: &Option<String>) -> (r: Option<String>)
    ensures
        opt_view(r) == opt_view(*o),
        r is Some == o is Some,
{
    match o {
        Some(s) => Some(s.clone()),
        None => None,
    }
}

// ── Lower case, trimming ────────────────────────────────────────────────────

/// `s` with its ASCII letters in lower case.
pub open spec fn lower_text(s: Seq<char>) -> Seq<char> {
    s.map_values(|c: char| lower(c))
}

/// The ASCII lower case of `s`.
pub fn to_lower(s: &str) -> (r: String)
    ensures
        r@ == lower_text(s@),
{
    let v = chars_of(s);
    let mut r = String::new();
    let mut i: usize = 0;
    while i < v.len()
        invariant
            i <= v@.len(),
            r@ == lower_text(v@.take(i as int)),
        decreases v@.len() - i,
    {
        r.push(lower_char(v[i]));
        proof {
            assert(v@.take(i + 1) == v@.take(i as int).push(v@[i as int]));
            assert(lower_text(v@.take(i + 1)) == lower_text(v@.take(i as int)).push(lower(v@[i as int])));
        }
        i = i + 1;
    }
    assert(v@.take(v@.len() as int) == v@);
    r
}

/// Where the first non-space character at or after `i` stands, or the length.
pub open spec fn skip_spaces(s: Seq<char>, i: int) -> int
    decreases s.len() - i,
{
    if i < 0 || i >= s.len() {
        s.len() as int
    } else if is_space(s[i]) {
        skip_spaces(s, i + 1)
    } else {
        i
    }
}

/// Where the first space character at or after `i` stands, or the length.
pub open spec fn skip_word(s: Seq<char>, i: int) -> int
    decreases s.len() - i,
{
    if i < 0 || i >= s.len() {
        s.len() as int
    } else if is_space(s[i]) {
        i
    } else {
        skip_word(s, i + 1)
    }
}

/// One past the last non-space character before `i`, or 0.
pub open spec fn drop_spaces(s: Seq<char>, i: int) -> int
    decreases i,
{
    if i <= 0 || i > s.len() {
        0
    } else if is_space(s[i - 1]) {
        drop_spaces(s, i - 1)
    } else {
        i
    }
}

/// `s` without white space at its two ends.
pub open spec fn trim(s: Seq<char>) -> Seq<char> {
    let a = skip_spaces(s, 0);
    let b = drop_spaces(s, s.len() as int);
    if a <= b {
        s.subrange(a, b)
    } else {
        Seq::empty()
    }
}

/// `skip_spaces` stays in range.
pub proof fn lemma_skip_spaces(s: Seq<char>, i: int)
    requires
        0 <= i <= s.len(),
    ensures
        i <= skip_spaces(s, i) <= s.len(),
        forall|j: int| i <= j < skip_spaces(s, i) ==> is_space(#[trigger] s[j]),
        skip_spaces(s, i) < s.len() ==> !is_space(s[skip_spaces(s, i)]),
    decreases s.len() - i,
{
    if i < s.len() && is_space(s[i]) {
        lemma_skip_spaces(s, i + 1);
    }
}

/// `skip_word` stays in range, and goes on where it starts at no space.
pub proof fn lemma_skip_word(s: Seq<char>, i: int)
    requires
        0 <= i <= s.len(),
    ensures
        i <= skip_word(s, i) <= s.len(),
        i < s.len() && !is_space(s[i]) ==> i < skip_word(s, i),
        forall|j: int| i <= j < skip_word(s, i) ==> !is_space(#[trigger] s[j]),
    decreases s.len() - i,
{
    if i < s.len() && !is_space(s[i]) {
        lemma_skip_word(s, i + 1);
    }
}

/// `drop_spaces` stays in range.
pub proof fn lemma_drop_spaces(s: Seq<char>, i: int)
    requires
        0 <= i <= s.len(),
    ensures
        0 <= drop_spaces(s, i) <= i,
        forall|j: int| drop_spaces(s, i) <= j < i ==> is_space(#[trigger] s[j]),
        drop_spaces(s, i) > 0 ==> !is_space(s[drop_spaces(s, i) - 1]),
    decreases i,
{
    if i > 0 && is_space(s[i - 1]) {
        lemma_drop_spaces(s, i - 1);
    }
}

/// A text whose ends are not white space is its own trimming.
pub proof fn lemma_trim_id(s: Seq<char>)
    requires
        s.len() > 0 ==> !is_space(s[0]) && !is_space(s.last()),
    ensures
        trim(s) == s,
{
    if s.len() > 0 {
        assert(skip_spaces(s, 0) == 0);
        assert(drop_spaces(s, s.len() as int) == s.len());
        assert(s.subrange(0, s.len() as int) == s);
    }
}

/// Index form of `skip_spaces`.
pub fn skip_spaces_at(v: &Vec<char>, from: usize) -> (r: usize)
    requires
        from <= v@.len(),
    ensures
        r == skip_spaces(v@, from as int),
        from <= r <= v@.len(),
{
    proof {
        lemma_skip_spaces(v@, from as int);
    }
    let mut i: usize = from;
    while i < v.len() && is_space_char(v[i])
        invariant
            from <= i <= v@.len(),
            skip_spaces(v@, i as int) == skip_spaces(v@, from as int),
        decreases v@.len() - i,
    {
        i = i + 1;
    }
    i
}

/// Index form of `skip_word`.
pub fn skip_word_at(v: &Vec<char>, from: usize) -> (r: usize)
    requires
        from <= v@.len(),
    ensures
        r == skip_word(v@, from as int),
        from <= r <= v@.len(),
{
    proof {
        lemma_skip_word(v@, from as int);
    }
    let mut i: usize = from;
    while i < v.len() && !is_space_char(v[i])
        invariant
            from <= i <= v@.len(),
            skip_word(v@, i as int) == skip_word(v@, from as int),
        decreases v@.len() - i,
    {
        i = i + 1;
    }
    i
}

/// `s` without white space at its two ends.
pub fn trimmed(s: &str) -> (r: String)
    ensures
        r@ == trim(s@),
{
    let v = chars_of(s);
    let a = skip_spaces_at(&v, 0);
    let mut b: usize = v.len();
    proof {
        lemma_drop_spaces(v@, v@.len() as int);
    }
    while b > 0 && is_space_char(v[b - 1])
        invariant
            b <= v@.len(),
            drop_spaces(v@, b as int) == drop_spaces(v@, v@.len() as int),
        decreases b,
    {
        b = b - 1;
    }
    if a <= b {
        slice_of(&v, a, b)
    } else {
        String::new()
    }
}

// ── Searching and splitting ─────────────────────────────────────────────────

/// Where the first `c` at or after `i` stands, or the length.
pub open spec fn find_from(s: Seq<char>, c: char, i: int) -> int
    decreases s.len() - i,
{
    if i < 0 || i >= s.len() {
        s.len() as int
    } else if s[i] == c {
        i
    } else {
        find_from(s, c, i + 1)
    }
}

/// `find_from` names the first occurrence.
pub proof fn lemma_find_from(s: Seq<char>, c: char, i: int)
    requires
        0 <= i <= s.len(),
    ensures
        i <= find_from(s, c, i) <= s.len(),
        find_from(s, c, i) < s.len() ==> s[find_from(s, c, i)] == c,
        forall|j: int| i <= j < find_from(s, c, i) ==> #[trigger] s[j] != c,
    decreases s.len() - i,
{
    if i < s.len() && s[i] != c {
        lemma_find_from(s, c, i + 1);
    }
}

/// An index before which no `c` stands, and at which one does, is the first.
pub proof fn lemma_find_at(s: Seq<char>, c: char, i: int, k: int)
    requires
        0 <= i <= k <= s.len(),
        k < s.len() ==> s[k] == c,
        forall|j: int| i <= j < k ==> #[trigger] s[j] != c,
    ensures
        find_from(s, c, i) == k,
    decreases k - i,
{
    if i < k {
        assert(s[i] != c);
        lemma_find_at(s, c, i + 1, k);
    }
}

/// Whether `c` occurs in `s`.
pub open spec fn has_char(s: Seq<char>, c: char) -> bool {
    find_from(s, c, 0) < s.len()
}

/// Index form of `find_from`.
pub fn find_char(v: &Vec<char>, c: char, from: usize) -> (r: usize)
    requires
        from <= v@.len(),
    ensures
        r == find_from(v@, c, from as int),
        from <= r <= v@.len(),
{
    proof {
        lemma_find_from(v@, c, from as int);
    }
    let mut i: usize = from;
    while i < v.len() && v[i] != c
        invariant
            from <= i <= v@.len(),
            find_from(v@, c, i as int) == find_from(v@, c, from as int),
        decreases v@.len() - i,
    {
        i = i + 1;
    }
    i
}

/// Whether `c` occurs in `s`.
pub fn contains_char(s: &str, c: char) -> (r: bool)
    ensures
        r == has_char(s@, c),
{
    let v = chars_of(s);
    find_char(&v, c, 0) < v.len()
}

/// `p` stands in `s` at `i`.
pub open spec fn at(s: Seq<char>, p: Seq<char>, i: int) -> bool {
    0 <= i && i + p.len() <= s.len() && s.subrange(i, i + p.len()) == p
}

/// Where the first `p` at or after `i` stands.
pub open spec fn find_text(s: Seq<char>, p: Seq<char>, i: int) -> Option<int>
    decreases s.len() + 1 - i,
{
    if i < 0 || i + p.len() > s.len() {
        None
    } else if at(s, p, i) {
        Some(i)
    } else {
        find_text(s, p, i + 1)
    }
}

/// Whether `p` occurs in `s`.
pub open spec fn has_text(s: Seq<char>, p: Seq<char>) -> bool {
    find_text(s, p, 0) is Some
}

/// Whether `s` begins with `p`.
pub open spec fn begins(s: Seq<char>, p: Seq<char>) -> bool {
    at(s, p, 0)
}

/// What follows `p` at the start of `s`, where it begins with it.
pub fn after_prefix(s: &str, p: &str) -> (r: Option<String>)
    ensures
        opt_view(r) == (if begins(s@, p@) {
            Some(s@.skip(p@.len() as int))
        } else {
            None
        }),
{
    let v = chars_of(s);
    let w = chars_of(p);
    if at_index(&v, &w, 0) {
        let r = slice_of(&v, w.len(), v.len());
        assert(r@ == s@.skip(p@.len() as int));
        Some(r)
    } else {
        None
    }
}

/// Whether `s` ends with `p`.
pub open spec fn ends(s: Seq<char>, p: Seq<char>) -> bool {
    at(s, p, s.len() - p.len())
}

/// `find_text` answers with an occurrence in range.
pub proof fn lemma_find_text(s: Seq<char>, p: Seq<char>, i: int)
    requires
        0 <= i,
    ensures
        find_text(s, p, i) matches Some(k) ==> i <= k && at(s, p, k),
    decreases s.len() + 1 - i,
{
    if i + p.len() <= s.len() && !at(s, p, i) {
        lemma_find_text(s, p, i + 1);
    }
}

/// Whether `p` stands in `v` at `i`.
pub fn at_index(v: &Vec<char>, p: &Vec<char>, i: usize) -> (r: bool)
    ensures
        r == at(v@, p@, i as int),
{
    if p.len() > v.len() || i > v.len() - p.len() {
        return false;
    }
    let mut j: usize = 0;
    while j < p.len()
        invariant
            j <= p@.len(),
            i + p.len() <= v.len(),
            forall|k: int| 0 <= k < j ==> v@[i + k] == p@[k],
        decreases p@.len() - j,
    {
        if v[i + j] != p[j] {
            assert(v@.subrange(i as int, i + p@.len())[j as int] != p@[j as int]);
            return false;
        }
        j = j + 1;
    }
    assert(v@.subrange(i as int, i + p@.len()) =~= p@);
    true
}

/// Index form of `find_text`.
pub fn find_text_at(v: &Vec<char>, p: &Vec<char>, from: usize) -> (r: Option<usize>)
    ensures
        match r {
            Some(k) => find_text(v@, p@, from as int) == Some(k as int) && from <= k && at(v@, p@, k as int),
            None => find_text(v@, p@, from as int) is None,
        },
{
    if p.len() > v.len() || from > v.len() {
        return None;
    }
    let mut i: usize = from;
    while i <= v.len() - p.len()
        invariant
            p@.len() <= v@.len(),
            from <= i <= v@.len() + 1,
            find_text(v@, p@, i as int) == find_text(v@, p@, from as int),
        decreases v@.len() + 1 - i,
    {
        if at_index(v, p, i) {
            return Some(i);
        }
        assert(p@.len() == 0 ==> v@.subrange(i as int, i as int) =~= p@);
        i = i + 1;
    }
    None
}

/// Whether `p` occurs in `s`.
pub fn contains_text(s: &str, p: &str) -> (r: bool)
    ensures
        r == has_text(s@, p@),
{
    find_text_at(&chars_of(s), &chars_of(p), 0).is_some()
}

/// Whether `s` begins with `p`.
pub fn begins_with(s: &str, p: &str) -> (r: bool)
    ensures
        r == begins(s@, p@),
{
    at_index(&chars_of(s), &chars_of(p), 0)
}

/// Whether `s` ends with `p`.
pub fn ends_with(s: &str, p: &str) -> (r: bool)
    ensures
        r == ends(s@, p@),
{
    let v = chars_of(s);
    let q = chars_of(p);
    if q.len() > v.len() {
        return false;
    }
    at_index(&v, &q, v.len() - q.len())
}


/// The pieces of `s` from `i` on, cut at every `c`.
pub open spec fn split_from(s: Seq<char>, c: char, i: int) -> Seq<Seq<char>>
    decreases s.len() - i,
{
    let k = find_from(s, c, i);
    if i <= k && k < s.len() {
        seq![s.subrange(i, k)] + split_from(s, c, k + 1)
    } else {
        seq![s.subrange(i, s.len() as int)]
    }
}

/// The pieces of `s`, cut at every `c`.
pub open spec fn split(s: Seq<char>, c: char) -> Seq<Seq<char>> {
    split_from(s, c, 0)
}

/// The pieces of `s`, cut at every `c`.
pub fn split_at(s: &str, c: char) -> (r: Vec<String>)
    ensures
        views(r@) == split(s@, c),
{
    let v = chars_of(s);
    let mut out: Vec<String> = Vec::new();
    let mut i: usize = 0;
    loop
        invariant
            v@ == s@,
            i <= v@.len(),
            views(out@) + split_from(v@, c, i as int) == split(v@, c),
        decreases v@.len() - i,
    {
        let k = find_char(&v, c, i);
        let piece = slice_of(&v, i, k);
        let ghost before = out@;
        out.push(piece);
        assert(views(out@) == views(before).push(piece@));
        if k < v.len() {
            assert(views(out@) + split_from(v@, c, k + 1) == views(before) + split_from(v@, c, i as int));
            i = k + 1;
        } else {
            assert(split_from(v@, c, i as int) == seq![piece@]);
            assert(views(out@) == split(v@, c));
            return out;
        }
    }
}

/// The non-empty pieces of `s` between the `c`s.
pub open spec fn parts(s: Seq<char>, c: char) -> Seq<Seq<char>> {
    split(s, c).filter(|p: Seq<char>| p.len() > 0)
}

/// Every such piece is non-empty.
pub proof fn lemma_parts(s: Seq<char>, c: char)
    ensures
        forall|i: int| 0 <= i < parts(s, c).len() ==> (#[trigger] parts(s, c)[i]).len() > 0,
{
    let keep = |p: Seq<char>| p.len() > 0;
    assert forall|i: int| 0 <= i < parts(s, c).len() implies (#[trigger] parts(s, c)[i]).len() > 0 by {
        split(s, c).lemma_filter_pred(keep, i);
    }
}

/// The non-empty pieces of `s` between the `c`s.
pub fn parts_of(s: &str, c: char) -> (r: Vec<String>)
    ensures
        views(r@) == parts(s@, c),
{
    let mut r: Vec<String> = Vec::new();
    let all = split_at(s, c);
    let ghost q = views(all@);
    let ghost keep = |p: Seq<char>| p.len() > 0;
    let mut i: usize = 0;
    assert(views(r@) == q.take(0).filter(keep)) by {
        reveal(Seq::filter);
        assert(views(r@) == Seq::<Seq<char>>::empty());
        assert(q.take(0).filter(keep) == Seq::<Seq<char>>::empty());
    }
    while i < all.len()
        invariant
            i <= all@.len(),
            q == views(all@),
            q.len() == all@.len(),
            keep == |p: Seq<char>| p.len() > 0,
            views(r@) == q.take(i as int).filter(keep),
        decreases all@.len() - i,
    {
        proof {
            assert(q.take(i + 1).drop_last() == q.take(i as int));
            assert(q.take(i + 1).last() == q[i as int]);
            assert(q[i as int] == all@[i as int]@);
            reveal(Seq::filter);
        }
        if !all[i].as_str().is_empty() {
            let ghost before = r@;
            r.push(all[i].clone());
            assert(views(r@) == views(before).push(q[i as int]));
        }
        i = i + 1;
    }
    assert(q.take(q.len() as int) == q);
    r
}

/// `line` without a carriage return at its end.
pub open spec fn chomp(line: Seq<char>) -> Seq<char> {
    if line.len() > 0 && line.last() == '\r' {
        line.drop_last()
    } else {
        line
    }
}

/// The lines of `s` from `i` on: each ends in a line feed, or a carriage
/// return and a line feed; the last may end with the text.
pub open spec fn lines_from(s: Seq<char>, i: int) -> Seq<Seq<char>>
    decreases s.len() - i,
{
    let k = find_from(s, '\n', i);
    if i < 0 || i >= s.len() {
        Seq::empty()
    } else if i <= k && k < s.len() {
        seq![chomp(s.subrange(i, k))] + lines_from(s, k + 1)
    } else {
        seq![s.subrange(i, s.len() as int)]
    }
}

/// The lines of `s`.
pub open spec fn lines(s: Seq<char>) -> Seq<Seq<char>> {
    lines_from(s, 0)
}

/// The lines of `s`.
pub fn lines_of(s: &str) -> (r: Vec<String>)
    ensures
        views(r@) == lines(s@),
{
    let v = chars_of(s);
    let mut out: Vec<String> = Vec::new();
    let mut i: usize = 0;
    while i < v.len()
        invariant
            v@ == s@,
            i <= v@.len(),
            views(out@) + lines_from(v@, i as int) == lines(v@),
        decreases v@.len() - i,
    {
        let k = find_char(&v, '\n', i);
        let ghost before = out@;
        if k < v.len() {
            let end: usize = if k > i && v[k - 1] == '\r' {
                k - 1
            } else {
                k
            };
            let piece = slice_of(&v, i, end);
            out.push(piece);
            proof {
                let whole = v@.subrange(i as int, k as int);
                if k > i {
                    assert(whole.last() == v@[k - 1]);
                }
                assert(piece@ == chomp(whole));
                assert(views(out@) == views(before).push(piece@));
                assert(views(out@) + lines_from(v@, k + 1) == views(before) + lines_from(v@, i as int));
            }
            i = k + 1;
        } else {
            let piece = slice_of(&v, i, k);
            out.push(piece);
            proof {
                assert(views(out@) == views(before).push(piece@));
                assert(lines_from(v@, i as int) == seq![piece@]);
            }
            i = k;
            assert(lines_from(v@, i as int) == Seq::<Seq<char>>::empty());
        }
    }
    assert(lines_from(v@, i as int) == Seq::<Seq<char>>::empty());
    out
}

/// The words of `s` from `i` on: the longest runs without white space.
pub open spec fn words_from(s: Seq<char>, i: int) -> Seq<Seq<char>>
    decreases s.len() - i,
{
    let a = skip_spaces(s, i);
    let b = skip_word(s, a);
    if 0 <= i && i <= a && a < b && b <= s.len() {
        seq![s.subrange(a, b)] + words_from(s, b)
    } else {
        Seq::empty()
    }
}

/// The words of `s`.
pub open spec fn words(s: Seq<char>) -> Seq<Seq<char>> {
    words_from(s, 0)
}

/// The words of `s`.
pub fn words_of(s: &str) -> (r: Vec<String>)
    ensures
        views(r@) == words(s@),
{
    let v = chars_of(s);
    let mut out: Vec<String> = Vec::new();
    let mut i: usize = 0;
    loop
        invariant
            v@ == s@,
            i <= v@.len(),
            views(out@) + words_from(v@, i as int) == words(v@),
        decreases v@.len() - i,
    {
        let a = skip_spaces_at(&v, i);
        if a == v.len() {
            assert(words_from(v@, i as int) == Seq::<Seq<char>>::empty());
            assert(views(out@) == words(v@));
            return out;
        }
        let b = skip_word_at(&v, a);
        proof {
            lemma_skip_spaces(v@, i as int);
            lemma_skip_word(v@, a as int);
        }
        let piece = slice_of(&v, a, b);
        let ghost before = out@;
        out.push(piece);
        proof {
            assert(views(out@) == views(before).push(piece@));
            assert(views(out@) + words_from(v@, b as int) == views(before) + words_from(v@, i as int));
        }
        i = b;
    }
}

/// The first `n` of `parts`, with `sep` between each two.
pub open spec fn join_upto(parts: Seq<Seq<char>>, sep: Seq<char>, n: int) -> Seq<char>
    decreases n,
{
    if n <= 0 || n > parts.len() {
        Seq::empty()
    } else if n == 1 {
        parts[0]
    } else {
        join_upto(parts, sep, n - 1) + sep + parts[n - 1]
    }
}

/// `parts` with `sep` between each two.
pub open spec fn join(parts: Seq<Seq<char>>, sep: Seq<char>) -> Seq<char> {
    join_upto(parts, sep, parts.len() as int)
}

/// The strings `from..` of `parts`, with `sep` between each two.
pub fn join_all(parts: &Vec<String>, from: usize, sep: &str) -> (r: String)
    requires
        from <= parts@.len(),
    ensures
        r@ == join(views(parts@).skip(from as int), sep@),
{
    let ghost all = views(parts@).skip(from as int);
    let mut r = String::new();
    let mut i: usize = from;
    while i < parts.len()
        invariant
            from <= i <= parts@.len(),
            all == views(parts@).skip(from as int),
            r@ == join_upto(all, sep@, i - from),
        decreases parts@.len() - i,
    {
        if i > from {
            r.append(sep);
        }
        r.append(parts[i].as_str());
        proof {
            assert(all[i - from] == parts@[i as int]@);
            if i == from {
                assert(r@ == parts@[i as int]@);
            }
        }
        i = i + 1;
    }
    r
}

/// `s` from `i` on, with every `p` (found left to right) replaced by `w`.
pub open spec fn replace_from(s: Seq<char>, p: Seq<char>, w: Seq<char>, i: int) -> Seq<char>
    decreases s.len() - i,
{
    match find_text(s, p, i) {
        Some(k) => if 0 <= i <= k < k + p.len() <= s.len() {
            s.subrange(i, k) + w + replace_from(s, p, w, k + p.len())
        } else {
            s.subrange(i, s.len() as int)
        },
        None => s.subrange(i, s.len() as int),
    }
}

/// `s` with every occurrence of `p` replaced by `w`.
pub open spec fn replace(s: Seq<char>, p: Seq<char>, w: Seq<char>) -> Seq<char> {
    replace_from(s, p, w, 0)
}

/// `s` with every occurrence of `p` replaced by `w`.
pub fn replace_all(s: &str, p: &str, w: &str) -> (r: String)
    requires
        p@.len() > 0,
    ensures
        r@ == replace(s@, p@, w@),
{
    let v = chars_of(s);
    let q = chars_of(p);
    let mut r = String::new();
    let mut i: usize = 0;
    loop
        invariant
            v@ == s@,
            q@ == p@,
            q@.len() > 0,
            i <= v@.len(),
            r@ + replace_from(v@, p@, w@, i as int) == replace(v@, p@, w@),
        decreases v@.len() - i,
    {
        match find_text_at(&v, &q, i) {
            Some(k) => {
                let ghost before = r@;
                r.append(slice_of(&v, i, k).as_str());
                r.append(w);
                proof {
                    assert(r@ + replace_from(v@, p@, w@, k + q@.len()) == before + replace_from(v@, p@, w@, i as int));
                }
                assert(k + q.len() <= v.len());
                i = k + q.len();
            },
            None => {
                r.append(slice_of(&v, i, v.len()).as_str());
                return r;
            },
        }
    }
}

/// `s` without any `c` at its end.
pub open spec fn trim_end_char(s: Seq<char>, c: char) -> Seq<char>
    decreases s.len(),
{
    if s.len() > 0 && s.last() == c {
        trim_end_char(s.drop_last(), c)
    } else {
        s
    }
}

/// `s` without any `c` at its start.
pub open spec fn trim_start_char(s: Seq<char>, c: char) -> Seq<char>
    decreases s.len(),
{
    if s.len() > 0 && s[0] == c {
        trim_start_char(s.skip(1), c)
    } else {
        s
    }
}

/// `s` without any `c` at its end.
pub fn without_trailing(s: &str, c: char) -> (r: String)
    ensures
        r@ == trim_end_char(s@, c),
{
    let v = chars_of(s);
    let mut n: usize = v.len();
    assert(v@.take(n as int) == v@);
    while n > 0 && v[n - 1] == c
        invariant
            n <= v@.len(),
            trim_end_char(v@.take(n as int), c) == trim_end_char(v@, c),
        decreases n,
    {
        assert(v@.take(n as int).drop_last() == v@.take(n - 1));
        n = n - 1;
    }
    assert(v@.take(n as int) == v@.subrange(0, n as int));
    slice_of(&v, 0, n)
}

/// `s` without any `c` at its start.
pub fn without_leading(s: &str, c: char) -> (r: String)
    ensures
        r@ == trim_start_char(s@, c),
{
    let v = chars_of(s);
    let mut n: usize = 0;
    assert(v@.skip(0) == v@);
    while n < v.len() && v[n] == c
        invariant
            n <= v@.len(),
            trim_start_char(v@.skip(n as int), c) == trim_start_char(v@, c),
        decreases v@.len() - n,
    {
        assert(v@.skip(n as int).skip(1) == v@.skip(n + 1));
        n = n + 1;
    }
    assert(v@.skip(n as int) == v@.subrange(n as int, v@.len() as int));
    slice_of(&v, n, v.len())
}

// ── Facts about splitting ───────────────────────────────────────────────────

/// A text without `c` has it at no index.
pub proof fn lemma_free_index(s: Seq<char>, c: char)
    requires
        !has_char(s, c),
    ensures
        forall|i: int| 0 <= i < s.len() ==> #[trigger] s[i] != c,
{
    lemma_find_from(s, c, 0);
}

/// A text that has `c` at no index is without it.
pub proof fn lemma_index_free(s: Seq<char>, c: char)
    requires
        forall|i: int| 0 <= i < s.len() ==> #[trigger] s[i] != c,
    ensures
        !has_char(s, c),
{
    lemma_find_at(s, c, 0, s.len() as int);
}

/// Two texts without `c` make one without it.
pub proof fn lemma_free_concat(a: Seq<char>, b: Seq<char>, c: char)
    requires
        !has_char(a, c),
        !has_char(b, c),
    ensures
        !has_char(a + b, c),
{
    lemma_free_index(a, c);
    lemma_free_index(b, c);
    lemma_index_free(a + b, c);
}

/// Five texts without `c`, joined by it, are its pieces.
pub proof fn lemma_split_five(
    a: Seq<char>,
    b: Seq<char>,
    d: Seq<char>,
    e: Seq<char>,
    f: Seq<char>,
    c: char,
)
    requires
        !has_char(a, c),
        !has_char(b, c),
        !has_char(d, c),
        !has_char(e, c),
        !has_char(f, c),
    ensures
        split(a + seq![c] + b + seq![c] + d + seq![c] + e + seq![c] + f, c) == seq![a, b, d, e, f],
{
    let t3 = e + seq![c] + f;
    let t2 = d + seq![c] + t3;
    let t1 = b + seq![c] + t2;
    assert(a + seq![c] + b + seq![c] + d + seq![c] + e + seq![c] + f =~= a + seq![c] + t1);
    lemma_split_head(a, c, t1);
    lemma_split_head(b, c, t2);
    lemma_split_head(d, c, t3);
    lemma_split_head(e, c, f);
    lemma_split_one(f, c);
    assert(seq![a] + (seq![b] + (seq![d] + (seq![e] + seq![f]))) =~= seq![a, b, d, e, f]);
}

/// Digits hold no other character.
pub proof fn lemma_digits_free(s: Seq<char>, c: char)
    requires
        all_digits(s),
        !is_digit(c),
    ensures
        !has_char(s, c),
{
    assert forall|i: int| 0 <= i < s.len() implies #[trigger] s[i] != c by {
        assert(is_digit(s[i]));
    }
    lemma_index_free(s, c);
}

/// A search behind a prefix is a search in the rest.
pub proof fn lemma_find_shift(p: Seq<char>, s: Seq<char>, c: char, i: int)
    requires
        0 <= i <= s.len(),
    ensures
        find_from(p + s, c, p.len() + i) == p.len() + find_from(s, c, i),
    decreases s.len() - i,
{
    if i < s.len() {
        assert((p + s)[p.len() + i] == s[i]);
        if s[i] != c {
            lemma_find_shift(p, s, c, i + 1);
        }
    }
}

/// Splitting behind a prefix is splitting the rest.
pub proof fn lemma_split_shift(p: Seq<char>, s: Seq<char>, c: char, i: int)
    requires
        0 <= i <= s.len(),
    ensures
        split_from(p + s, c, p.len() + i) == split_from(s, c, i),
    decreases s.len() - i,
{
    lemma_find_shift(p, s, c, i);
    lemma_find_from(s, c, i);
    let k = find_from(s, c, i);
    assert((p + s).subrange(p.len() + i, p.len() + k) =~= s.subrange(i, k));
    if k < s.len() {
        lemma_split_shift(p, s, c, k + 1);
    } else {
        assert((p + s).len() == p.len() + s.len());
    }
}

/// A text without `c` is its own only piece.
pub proof fn lemma_split_one(s: Seq<char>, c: char)
    requires
        !has_char(s, c),
    ensures
        split(s, c) == seq![s],
{
    lemma_find_from(s, c, 0);
    assert(s.subrange(0, s.len() as int) =~= s);
}

/// What stands before the first `c` is the first piece.
pub proof fn lemma_split_head(a: Seq<char>, c: char, rest: Seq<char>)
    requires
        !has_char(a, c),
    ensures
        split(a + seq![c] + rest, c) == seq![a] + split(rest, c),
        find_from(a + seq![c] + rest, c, 0) == a.len(),
{
    let s = a + seq![c] + rest;
    lemma_free_index(a, c);
    lemma_find_at(s, c, 0, a.len() as int);
    assert(s.subrange(0, a.len() as int) =~= a);
    assert(s =~= (a + seq![c]) + rest);
    lemma_split_shift(a + seq![c], rest, c, 0);
}

/// A line feed ends one more line.
pub proof fn lemma_lines_push(s: Seq<char>, line: Seq<char>)
    requires
        s.len() > 0 ==> s.last() == '\n',
        !has_char(line, '\n'),
        line.len() > 0 ==> line.last() != '\r',
    ensures
        lines(s + line + seq!['\n']) == lines(s).push(line),
        lines(s) == lines(s + line + seq!['\n']).take(lines(s).len() as int),
{
    lemma_lines_from_push(s, line, 0);
}

proof fn lemma_lines_from_push(s: Seq<char>, line: Seq<char>, i: int)
    requires
        0 <= i <= s.len(),
        s.len() > 0 ==> s.last() == '\n',
        !has_char(line, '\n'),
        line.len() > 0 ==> line.last() != '\r',
    ensures
        lines_from(s + line + seq!['\n'], i) == lines_from(s, i).push(line),
    decreases s.len() - i,
{
    let t = s + line + seq!['\n'];
    if i == s.len() {
        lemma_free_index(line, '\n');
        assert forall|j: int| i <= j < s.len() + line.len() implies #[trigger] t[j] != '\n' by {
            assert(t[j] == line[j - s.len()]);
        }
        lemma_find_at(t, '\n', i, (s.len() + line.len()) as int);
        assert(t.subrange(i, (s.len() + line.len()) as int) =~= line);
        assert(lines_from(t, t.len() as int) =~= Seq::<Seq<char>>::empty());
        assert(lines_from(t, i) =~= seq![line]);
        assert(lines_from(s, i) =~= Seq::<Seq<char>>::empty());
    } else {
        lemma_find_from(s, '\n', i);
        let k = find_from(s, '\n', i);
        assert(k < s.len()) by {
            if k == s.len() {
                assert(s[s.len() - 1] != '\n');
            }
        }
        assert forall|j: int| i <= j < k implies #[trigger] t[j] != '\n' by {
            assert(t[j] == s[j]);
        }
        lemma_find_at(t, '\n', i, k);
        assert(t.subrange(i, k) =~= s.subrange(i, k));
        lemma_lines_from_push(s, line, k + 1);
        assert(lines_from(t, i) =~= lines_from(s, i).push(line));
    }
}

// ── Numbers ─────────────────────────────────────────────────────────────────

/// The digit of value `d`.
pub open spec fn digit(d: nat) -> char {
    ('0' as u32 + d) as char
}

/// `n` in decimal.
pub open spec fn decimal(n: nat) -> Seq<char>
    decreases n,
{
    if n < 10 {
        seq![digit(n)]
    } else {
        decimal(n / 10).push(digit(n % 10))
    }
}

/// Every character is a decimal digit.
pub open spec fn all_digits(s: Seq<char>) -> bool {
    forall|i: int| 0 <= i < s.len() ==> is_digit(#[trigger] s[i])
}

/// The value of a run of decimal digits.
pub open spec fn digits_value(s: Seq<char>) -> nat
    decreases s.len(),
{
    if s.len() == 0 {
        0
    } else {
        digits_value(s.drop_last()) * 10 + (s.last() as u32 - '0' as u32) as nat
    }
}

/// `s` without one `+` at its start.
pub open spec fn unsigned_digits(s: Seq<char>) -> Seq<char> {
    if s.len() > 0 && s[0] == '+' {
        s.skip(1)
    } else {
        s
    }
}

/// The unsigned number that `s` writes in decimal, when it writes one no larger
/// than `max`: one optional `+`, then digits only, at least one.
pub open spec fn number(s: Seq<char>, max: nat) -> Option<nat> {
    let d = unsigned_digits(s);
    if d.len() > 0 && all_digits(d) && digits_value(d) <= max {
        Some(digits_value(d))
    } else {
        None
    }
}

/// `decimal` writes at least one digit, digits only, and of value `n`.
pub proof fn lemma_decimal(n: nat)
    ensures
        decimal(n).len() > 0,
        all_digits(decimal(n)),
        digits_value(decimal(n)) == n,
    decreases n,
{
    if n < 10 {
        assert(decimal(n) == seq![digit(n)]);
        assert(decimal(n).drop_last() == Seq::<char>::empty());
        assert(digits_value(decimal(n).drop_last()) == 0);
    } else {
        lemma_decimal(n / 10);
        assert(decimal(n).drop_last() == decimal(n / 10));
    }
}

/// A number written in decimal is read back as itself.
pub proof fn number_reads_decimal(n: nat, max: nat)
    requires
        n <= max,
    ensures
        number(decimal(n), max) == Some(n),
{
    lemma_decimal(n);
    assert(is_digit(decimal(n)[0]));
}

/// More digits never make a smaller value.
pub proof fn lemma_digits_grow(s: Seq<char>, i: int)
    requires
        all_digits(s),
        0 <= i <= s.len(),
    ensures
        digits_value(s.take(i)) <= digits_value(s),
    decreases s.len() - i,
{
    if i < s.len() {
        assert(s.take(i + 1).drop_last() == s.take(i));
        assert(is_digit(s[i]));
        lemma_digits_grow(s, i + 1);
    } else {
        assert(s.take(i) == s);
    }
}

/// The number that `s` writes, when it fits.
pub fn parse_u64(s: &str) -> (r: Option<u64>)
    ensures
        match r {
            Some(n) => number(s@, u64::MAX as nat) == Some(n as nat),
            None => number(s@, u64::MAX as nat) is None,
        },
{
    let v = chars_of(s);
    let start: usize = if v.len() > 0 && v[0] == '+' {
        1
    } else {
        0
    };
    let ghost d = unsigned_digits(s@);
    assert(d == v@.skip(start as int));
    if start == v.len() {
        return None;
    }
    let mut i: usize = start;
    let mut n: u64 = 0;
    while i < v.len()
        invariant
            start <= i <= v@.len(),
            d == v@.skip(start as int),
            forall|j: int| 0 <= j < i - start ==> is_digit(#[trigger] d[j]),
            n == digits_value(d.take(i - start)),
            s@ == v@,
            d == unsigned_digits(s@),
        decreases v@.len() - i,
    {
        let c = v[i];
        assert(c == d[i - start]);
        if !is_digit_char(c) {
            assert(!all_digits(d));
            return None;
        }
        let k: u64 = (c as u32 - '0' as u32) as u64;
        assert(d.take(i - start + 1).drop_last() == d.take(i - start));
        if n > 1844674407370955161 || (n == 1844674407370955161 && k > 5) {
            proof {
                if all_digits(d) {
                    lemma_digits_grow(d, i - start + 1);
                }
            }
            return None;
        }
        n = n * 10 + k;
        i = i + 1;
    }
    assert(d.take(d.len() as int) == d);
    Some(n)
}

/// The number that `s` writes, when it fits in 32 bits.
pub fn parse_u32(s: &str) -> (r: Option<u32>)
    ensures
        match r {
            Some(n) => number(s@, u32::MAX as nat) == Some(n as nat),
            None => number(s@, u32::MAX as nat) is None,
        },
{
    match parse_u64(s) {
        Some(n) => if n <= u32::MAX as u64 {
            Some(n as u32)
        } else {
            None
        },
        None => None,
    }
}

/// The number that `s` writes, when it fits in 16 bits.
pub fn parse_u16(s: &str) -> (r: Option<u16>)
    ensures
        match r {
            Some(n) => number(s@, u16::MAX as nat) == Some(n as nat),
            None => number(s@, u16::MAX as nat) is None,
        },
{
    match parse_u64(s) {
        Some(n) => if n <= u16::MAX as u64 {
            Some(n as u16)
        } else {
            None
        },
        None => None,
    }
}

/// `n` in decimal.
pub fn decimal_of(n: u64) -> (r: String)
    ensures
        r@ == decimal(n as nat),
    decreases n,
{
    let mut r = if n < 10 {
        String::new()
    } else {
        decimal_of(n / 10)
    };
    let d: u8 = (n % 10) as u8;
    r.push(('0' as u8 + d) as char);
    proof {
        if n < 10 {
            assert(r@ == seq![digit(n as nat)]);
        }
    }
    r
}

/// `n` in decimal.
pub fn decimal_wide(n: u128) -> (r: String)
    ensures
        r@ == decimal(n as nat),
    decreases n,
{
    let mut r = if n < 10 {
        String::new()
    } else {
        decimal_wide(n / 10)
    };
    let d: u8 = (n % 10) as u8;
    r.push(('0' as u8 + d) as char);
    proof {
        if n < 10 {
            assert(r@ == seq![digit(n as nat)]);
        }
    }
    r
}

/// The digits behind the point of `f` parts of `10 * unit`, without zeros at the end.
pub open spec fn fraction(f: nat, unit: nat) -> Seq<char>
    decreases unit,
{
    if f == 0 || unit == 0 {
        Seq::empty()
    } else {
        seq![digit((f / unit) % 10)] + fraction(f % unit, unit / 10)
    }
}

/// `whole` and `f` parts of `10 * unit`, as a decimal number.
pub open spec fn measure(whole: nat, f: nat, unit: nat) -> Seq<char> {
    if f == 0 {
        decimal(whole)
    } else {
        decimal(whole) + "."@ + fraction(f, unit)
    }
}

/// `nanos` nanoseconds in the largest unit of which there is one.
pub open spec fn duration(nanos: nat) -> Seq<char> {
    if nanos >= 1_000_000_000 {
        measure(nanos / 1_000_000_000, nanos % 1_000_000_000, 100_000_000) + "s"@
    } else if nanos >= 1_000_000 {
        measure(nanos / 1_000_000, nanos % 1_000_000, 100_000) + "ms"@
    } else if nanos >= 1_000 {
        measure(nanos / 1_000, nanos % 1_000, 100) + "µs"@
    } else {
        decimal(nanos) + "ns"@
    }
}

fn fraction_of(f: u128, unit: u128) -> (r: String)
    ensures
        r@ == fraction(f as nat, unit as nat),
    decreases unit,
{
    if f == 0 || unit == 0 {
        return String::new();
    }
    let mut r = String::new();
    let d: u8 = ((f / unit) % 10) as u8;
    r.push(('0' as u8 + d) as char);
    r.append(fraction_of(f % unit, unit / 10).as_str());
    assert(r@ =~= fraction(f as nat, unit as nat));
    r
}

fn measure_of(whole: u128, f: u128, unit: u128) -> (r: String)
    ensures
        r@ == measure(whole as nat, f as nat, unit as nat),
{
    if f == 0 {
        decimal_wide(whole)
    } else {
        concat3(decimal_wide(whole).as_str(), ".", fraction_of(f, unit).as_str())
    }
}

/// `nanos` nanoseconds in the largest unit of which there is one, such as `1.5s` or
/// `20ms`.
pub fn duration_of(nanos: u128) -> (r: String)
    ensures
        r@ == duration(nanos as nat),
{
    if nanos >= 1_000_000_000 {
        let m = measure_of(nanos / 1_000_000_000, nanos % 1_000_000_000, 100_000_000);
        concat(m.as_str(), "s")
    } else if nanos >= 1_000_000 {
        concat(measure_of(nanos / 1_000_000, nanos % 1_000_000, 100_000).as_str(), "ms")
    } else if nanos >= 1_000 {
        concat(measure_of(nanos / 1_000, nanos % 1_000, 100).as_str(), "µs")
    } else {
        concat(decimal_wide(nanos).as_str(), "ns")
    }
}

// ── What the functions of this module come to ───────────────────────────────

/// Lower case moves each of the 26 capital letters of ASCII 32 places up, and
/// nothing else.
pub proof fn lower_case_changes_capitals_only(c: char)
    ensures
        65 <= c as u32 <= 90 ==> lower(c) as u32 == c as u32 + 32,
        !(65 <= c as u32 <= 90) ==> lower(c) == c,
        lower(lower(c)) == lower(c),
{
}

/// The ASCII digits and letters, by their codes.
pub proof fn digits_and_letters_by_code(c: char)
    ensures
        is_digit(c) <==> 48 <= c as u32 <= 57,
        is_alnum(c) <==> 48 <= c as u32 <= 57 || 65 <= c as u32 <= 90 || 97 <= c as u32 <= 122,
{
}

/// The white space of ASCII is the tab, the line feed, the vertical tab, the form
/// feed, the carriage return and the space.
pub proof fn white_space_of_ascii(c: char)
    requires
        (c as u32) < 128,
    ensures
        is_space(c) <==> c == '\t' || c == '\n' || c as u32 == 11 || c as u32 == 12 || c == '\r'
            || c == ' ',
{
}

/// Lower case keeps a text's length and works on each character by itself.
pub proof fn lower_text_keeps_places(s: Seq<char>)
    ensures
        lower_text(s).len() == s.len(),
        forall|i: int| 0 <= i < s.len() ==> #[trigger] lower_text(s)[i] == lower(s[i]),
{
}

/// Trimming takes white space off the two ends, all of it, and nothing else.
pub proof fn trimming_takes_white_space_off_the_ends(s: Seq<char>) -> (r: (Seq<char>, Seq<char>))
    ensures
        s == r.0 + trim(s) + r.1,
        forall|i: int| 0 <= i < r.0.len() ==> is_space(#[trigger] r.0[i]),
        forall|i: int| 0 <= i < r.1.len() ==> is_space(#[trigger] r.1[i]),
        trim(s).len() > 0 ==> !is_space(trim(s)[0]) && !is_space(trim(s).last()),
        trim(trim(s)) == trim(s),
{
    let n = s.len() as int;
    lemma_skip_spaces(s, 0);
    lemma_drop_spaces(s, n);
    let a = skip_spaces(s, 0);
    let b = drop_spaces(s, n);
    if a < b {
        assert(trim(s)[0] == s[a]);
        assert(trim(s).last() == s[b - 1]);
        lemma_trim_id(trim(s));
        assert(s =~= s.take(a) + trim(s) + s.skip(b));
        (s.take(a), s.skip(b))
    } else {
        assert forall|i: int| 0 <= i < n implies is_space(#[trigger] s[i]) by {
            if i >= a {
                assert(b <= i);
            }
        }
        assert(trim(s) =~= Seq::<char>::empty());
        lemma_trim_id(trim(s));
        assert(s =~= s + trim(s) + Seq::<char>::empty());
        (s, Seq::<char>::empty())
    }
}

/// A text begins with what stands in front of another, and what follows the
/// beginning is that other.
pub proof fn a_beginning_is_what_stands_in_front(p: Seq<char>, t: Seq<char>)
    ensures
        begins(p + t, p),
        (p + t).skip(p.len() as int) == t,
        forall|s: Seq<char>| #[trigger] begins(s, p) ==> s == p + s.skip(p.len() as int),
{
    assert((p + t).subrange(0, p.len() as int) =~= p);
    assert((p + t).skip(p.len() as int) =~= t);
    assert forall|s: Seq<char>| #[trigger] begins(s, p) implies s == p + s.skip(
        p.len() as int,
    ) by {
        assert(s =~= s.subrange(0, p.len() as int) + s.skip(p.len() as int));
    }
}

/// A text ends with what stands behind another.
pub proof fn an_end_is_what_stands_behind(t: Seq<char>, p: Seq<char>)
    ensures
        ends(t + p, p),
        forall|s: Seq<char>| #[trigger]
            ends(s, p) ==> p.len() <= s.len() && s == s.take(s.len() - p.len()) + p,
{
    assert((t + p).subrange(t.len() as int, (t + p).len() as int) =~= p);
    assert forall|s: Seq<char>| #[trigger] ends(s, p) implies p.len() <= s.len() && s == s.take(
        s.len() - p.len(),
    ) + p by {
        let k = s.len() - p.len();
        assert(s =~= s.take(k) + s.subrange(k, s.len() as int));
    }
}

/// Without a trailing character: what is left does not end in it, and what was
/// taken off is nothing else.
pub proof fn a_trailing_character_is_taken_off(s: Seq<char>, c: char)
    ensures
        trim_end_char(s, c).len() <= s.len(),
        trim_end_char(s, c) == s.take(trim_end_char(s, c).len() as int),
        trim_end_char(s, c).len() > 0 ==> trim_end_char(s, c).last() != c,
        forall|i: int| trim_end_char(s, c).len() <= i < s.len() ==> #[trigger] s[i] == c,
    decreases s.len(),
{
    if s.len() > 0 && s.last() == c {
        let t = s.drop_last();
        a_trailing_character_is_taken_off(t, c);
        let n = trim_end_char(t, c).len();
        assert(t.take(n as int) =~= s.take(n as int));
        assert forall|i: int| n <= i < s.len() implies #[trigger] s[i] == c by {
            if i < t.len() {
                assert(t[i] == s[i]);
            }
        }
    } else {
        assert(s.take(s.len() as int) =~= s);
    }
}

/// Without a leading character: what is left does not begin with it, and what was
/// taken off is nothing else.
pub proof fn a_leading_character_is_taken_off(s: Seq<char>, c: char)
    ensures
        trim_start_char(s, c).len() <= s.len(),
        trim_start_char(s, c) == s.skip(s.len() - trim_start_char(s, c).len()),
        trim_start_char(s, c).len() > 0 ==> trim_start_char(s, c)[0] != c,
        forall|i: int| 0 <= i < s.len() - trim_start_char(s, c).len() ==> #[trigger] s[i] == c,
    decreases s.len(),
{
    if s.len() > 0 && s[0] == c {
        let t = s.skip(1);
        a_leading_character_is_taken_off(t, c);
        let n = trim_start_char(t, c).len();
        assert(t.skip(t.len() - n) =~= s.skip(s.len() - n));
        assert forall|i: int| 0 <= i < s.len() - n implies #[trigger] s[i] == c by {
            if i > 0 {
                assert(t[i - 1] == s[i]);
            }
        }
    } else {
        assert(s.skip(0) =~= s);
    }
}

/// Joining one text more puts the separator between.
pub proof fn joining_puts_the_separator_between(parts: Seq<Seq<char>>, sep: Seq<char>)
    ensures
        parts.len() == 0 ==> join(parts, sep) == Seq::<char>::empty(),
        parts.len() == 1 ==> join(parts, sep) == parts[0],
        parts.len() > 1 ==> join(parts, sep) == join(parts.drop_last(), sep) + sep + parts.last(),
        parts.len() > 1 ==> join(parts, sep) == parts[0] + sep + join(parts.skip(1), sep),
{
    let n = parts.len() as int;
    if n > 1 {
        lemma_join_prefix(parts, parts.drop_last(), sep, n - 1);
        lemma_join_front(parts, sep, n);
    }
}

proof fn lemma_join_prefix(a: Seq<Seq<char>>, b: Seq<Seq<char>>, sep: Seq<char>, n: int)
    requires
        0 <= n <= a.len(),
        n <= b.len(),
        forall|i: int| 0 <= i < n ==> #[trigger] a[i] == b[i],
    ensures
        join_upto(a, sep, n) == join_upto(b, sep, n),
    decreases n,
{
    if n > 1 {
        lemma_join_prefix(a, b, sep, n - 1);
    }
    if n >= 1 {
        assert(a[n - 1] == b[n - 1]);
    }
}

proof fn lemma_join_front(parts: Seq<Seq<char>>, sep: Seq<char>, n: int)
    requires
        1 < n <= parts.len(),
    ensures
        join_upto(parts, sep, n) == parts[0] + sep + join_upto(parts.skip(1), sep, n - 1),
    decreases n,
{
    let rest = parts.skip(1);
    assert(rest[n - 2] == parts[n - 1]);
    if n == 2 {
        assert(join_upto(parts, sep, 1) == parts[0]);
        assert(join_upto(rest, sep, 1) == rest[0]);
    } else {
        lemma_join_front(parts, sep, n - 1);
        assert(join_upto(parts, sep, n) =~= parts[0] + sep + join_upto(rest, sep, n - 1));
    }
}

/// Splitting at a character and joining with it gives the text back, and no piece
/// holds the character.
pub proof fn splitting_is_undone_by_joining(s: Seq<char>, c: char)
    ensures
        split(s, c).len() >= 1,
        join(split(s, c), seq![c]) == s,
        forall|i: int| 0 <= i < split(s, c).len() ==> !has_char(#[trigger] split(s, c)[i], c),
{
    lemma_split_join_from(s, c, 0);
    assert(s.subrange(0, s.len() as int) =~= s);
}

proof fn lemma_split_join_from(s: Seq<char>, c: char, i: int)
    requires
        0 <= i <= s.len(),
    ensures
        split_from(s, c, i).len() >= 1,
        join(split_from(s, c, i), seq![c]) == s.subrange(i, s.len() as int),
        forall|j: int|
            0 <= j < split_from(s, c, i).len() ==> !has_char(#[trigger] split_from(s, c, i)[j], c),
    decreases s.len() - i,
{
    lemma_find_from(s, c, i);
    let k = find_from(s, c, i);
    let piece = s.subrange(i, k);
    assert forall|j: int| 0 <= j < piece.len() implies #[trigger] piece[j] != c by {
        assert(piece[j] == s[i + j]);
    }
    lemma_index_free(piece, c);
    let all = split_from(s, c, i);
    if k < s.len() {
        lemma_split_join_from(s, c, k + 1);
        let rest = split_from(s, c, k + 1);
        assert(all == seq![piece] + rest);
        assert(all.skip(1) =~= rest);
        joining_puts_the_separator_between(all, seq![c]);
        assert(piece + seq![c] + s.subrange(k + 1, s.len() as int) =~= s.subrange(
            i,
            s.len() as int,
        ));
        assert forall|j: int| 0 <= j < all.len() implies !has_char(#[trigger] all[j], c) by {
            if j > 0 {
                assert(all[j] == rest[j - 1]);
            }
        }
    } else {
        assert(all =~= seq![piece]);
        joining_puts_the_separator_between(all, seq![c]);
    }
}

/// The non-empty pieces of a text: none of them holds the character that they were
/// cut at, and where no piece is empty they are all the pieces.
pub proof fn parts_are_the_pieces_that_are_not_empty(s: Seq<char>, c: char)
    ensures
        forall|i: int|
            0 <= i < parts(s, c).len() ==> (#[trigger] parts(s, c)[i]).len() > 0 && !has_char(
                parts(s, c)[i],
                c,
            ),
        forall|p: Seq<char>| #[trigger]
            parts(s, c).contains(p) <==> split(s, c).contains(p) && p.len() > 0,
        (forall|i: int| 0 <= i < split(s, c).len() ==> (#[trigger] split(s, c)[i]).len() > 0)
            ==> parts(s, c) == split(s, c),
{
    let keep = |p: Seq<char>| p.len() > 0;
    let all = split(s, c);
    splitting_is_undone_by_joining(s, c);
    assert forall|p: Seq<char>| #[trigger] parts(s, c).contains(p) implies all.contains(p)
        && p.len() > 0 by {
        let i = choose|i: int| 0 <= i < parts(s, c).len() && parts(s, c)[i] == p;
        all.lemma_filter_contains_rev(keep, p);
        lemma_parts(s, c);
    }
    assert forall|p: Seq<char>| all.contains(p) && p.len() > 0 implies #[trigger] parts(
        s,
        c,
    ).contains(p) by {
        let i = choose|i: int| 0 <= i < all.len() && all[i] == p;
        all.lemma_filter_contains(keep, i);
    }
    assert forall|i: int| 0 <= i < parts(s, c).len() implies (#[trigger] parts(s, c)[i]).len() > 0
        && !has_char(parts(s, c)[i], c) by {
        assert(parts(s, c).contains(parts(s, c)[i]));
    }
    if forall|i: int| 0 <= i < all.len() ==> (#[trigger] all[i]).len() > 0 {
        lemma_filter_all(all);
    }
}

proof fn lemma_filter_all(all: Seq<Seq<char>>)
    requires
        forall|i: int| 0 <= i < all.len() ==> (#[trigger] all[i]).len() > 0,
    ensures
        all.filter(|p: Seq<char>| p.len() > 0) == all,
    decreases all.len(),
{
    reveal(Seq::filter);
    if all.len() > 0 {
        let front = all.drop_last();
        assert forall|i: int| 0 <= i < front.len() implies (#[trigger] front[i]).len() > 0 by {
            assert(front[i] == all[i]);
        }
        lemma_filter_all(front);
        assert(front.push(all.last()) =~= all);
    }
}

/// A text is searched from the front: what is found is the first occurrence, and
/// nothing is found only where there is none.
pub proof fn a_search_finds_the_first_occurrence(s: Seq<char>, p: Seq<char>, i: int)
    requires
        0 <= i,
    ensures
        match find_text(s, p, i) {
            Some(k) => i <= k && at(s, p, k) && forall|j: int| i <= j < k ==> !#[trigger] at(s, p, j),
            None => forall|j: int| i <= j ==> !#[trigger] at(s, p, j),
        },
    decreases s.len() + 1 - i,
{
    if i + p.len() <= s.len() && !at(s, p, i) {
        a_search_finds_the_first_occurrence(s, p, i + 1);
    }
}

/// Replacing puts `w` in the place of the first occurrence of `p` and goes on
/// behind it; a text without `p` stays as it is.
pub proof fn replacing_works_from_the_front(s: Seq<char>, p: Seq<char>, w: Seq<char>)
    requires
        p.len() > 0,
    ensures
        (forall|j: int| !#[trigger] at(s, p, j)) ==> replace(s, p, w) == s,
        forall|a: Seq<char>, b: Seq<char>|
            s == #[trigger] (a + p + b) && (forall|j: int| 0 <= j < a.len() ==> !#[trigger] at(s, p, j))
                ==> replace(s, p, w) == a + w + replace(b, p, w),
{
    a_search_finds_the_first_occurrence(s, p, 0);
    if forall|j: int| !#[trigger] at(s, p, j) {
        assert(find_text(s, p, 0) is None) by {
            if let Some(k) = find_text(s, p, 0) {
                assert(at(s, p, k));
            }
        }
        assert(s.subrange(0, s.len() as int) =~= s);
    }
    assert forall|a: Seq<char>, b: Seq<char>|
        s == #[trigger] (a + p + b) && (forall|j: int|
            0 <= j < a.len() ==> !#[trigger] at(s, p, j)) implies replace(s, p, w) == a + w + replace(
        b,
        p,
        w,
    ) by {
        let k = a.len() as int;
        assert(s.subrange(k, k + p.len()) =~= p);
        assert(at(s, p, k));
        assert(find_text(s, p, 0) == Some(k));
        assert(s.subrange(0, k) =~= a);
        lemma_replace_shift(a + p, b, p, w, 0);
        assert(s =~= (a + p) + b);
        assert(replace_from(s, p, w, k + p.len()) == replace(b, p, w));
    }
}

proof fn lemma_find_text_shift(h: Seq<char>, s: Seq<char>, p: Seq<char>, i: int)
    requires
        0 <= i,
    ensures
        find_text(h + s, p, h.len() + i) == (match find_text(s, p, i) {
            Some(k) => Some(h.len() + k),
            None => None::<int>,
        }),
    decreases s.len() + 1 - i,
{
    if i + p.len() <= s.len() {
        assert((h + s).subrange(h.len() + i, h.len() + i + p.len()) =~= s.subrange(i, i + p.len()));
        if !at(s, p, i) {
            lemma_find_text_shift(h, s, p, i + 1);
        }
    }
}

proof fn lemma_replace_shift(h: Seq<char>, s: Seq<char>, p: Seq<char>, w: Seq<char>, i: int)
    requires
        0 <= i <= s.len(),
        p.len() > 0,
    ensures
        replace_from(h + s, p, w, h.len() + i) == replace_from(s, p, w, i),
    decreases s.len() - i,
{
    let t = h + s;
    lemma_find_text_shift(h, s, p, i);
    lemma_find_text(s, p, i);
    match find_text(s, p, i) {
        Some(k) => {
            lemma_replace_shift(h, s, p, w, k + p.len());
            assert(t.subrange(h.len() + i, h.len() + k) =~= s.subrange(i, k));
        },
        None => {
            assert(t.subrange(h.len() + i, t.len() as int) =~= s.subrange(i, s.len() as int));
        },
    }
}

/// The first line of a text ends at its first line feed; a carriage return in front
/// of that is no part of it.
pub proof fn a_line_ends_at_a_line_feed(line: Seq<char>, rest: Seq<char>)
    requires
        !has_char(line, '\n'),
    ensures
        line.len() == 0 || line.last() != '\r' ==> lines(line + seq!['\n'] + rest) == seq![line]
            + lines(rest),
        lines(line + seq!['\r', '\n'] + rest) == seq![line] + lines(rest),
        line.len() > 0 ==> lines(line) == seq![line],
        lines(Seq::<char>::empty()) == Seq::<Seq<char>>::empty(),
{
    let n = line.len() as int;
    lemma_free_index(line, '\n');
    if line.len() == 0 || line.last() != '\r' {
        let s = line + seq!['\n'] + rest;
        lemma_find_at(s, '\n', 0, n);
        assert(s.subrange(0, n) =~= line);
        assert(s =~= (line + seq!['\n']) + rest);
        lemma_lines_shift(line + seq!['\n'], rest, 0);
    }
    let s = line + seq!['\r', '\n'] + rest;
    assert forall|j: int| 0 <= j < n + 1 implies #[trigger] s[j] != '\n' by {
        if j < n {
            assert(s[j] == line[j]);
        }
    }
    lemma_find_at(s, '\n', 0, n + 1);
    assert(s.subrange(0, n + 1).drop_last() =~= line);
    assert(s =~= (line + seq!['\r', '\n']) + rest);
    lemma_lines_shift(line + seq!['\r', '\n'], rest, 0);
    if line.len() > 0 {
        lemma_find_at(line, '\n', 0, n);
        assert(line.subrange(0, n) =~= line);
        assert(lines(line) =~= seq![line]);
    }
    assert(lines(Seq::<char>::empty()) =~= Seq::<Seq<char>>::empty());
}

proof fn lemma_lines_shift(p: Seq<char>, s: Seq<char>, i: int)
    requires
        0 <= i <= s.len(),
    ensures
        lines_from(p + s, p.len() + i) == lines_from(s, i),
    decreases s.len() - i,
{
    if i < s.len() {
        lemma_find_shift(p, s, '\n', i);
        lemma_find_from(s, '\n', i);
        let k = find_from(s, '\n', i);
        assert((p + s).subrange(p.len() + i, p.len() + k) =~= s.subrange(i, k));
        if k < s.len() {
            lemma_lines_shift(p, s, k + 1);
        } else {
            assert(lines_from(p + s, p.len() + i) =~= lines_from(s, i));
        }
    } else {
        assert(lines_from(p + s, p.len() + i) =~= lines_from(s, i));
    }
}

/// No word holds white space and none is empty.
pub proof fn words_hold_no_white_space(s: Seq<char>)
    ensures
        forall|i: int| 0 <= i < words(s).len() ==> (#[trigger] words(s)[i]).len() > 0,
        forall|i: int, j: int|
            0 <= i < words(s).len() && 0 <= j < words(s)[i].len() ==> !is_space(
                #[trigger] words(s)[i][j],
            ),
{
    lemma_words_from(s, 0);
}

proof fn lemma_words_from(s: Seq<char>, i: int)
    requires
        0 <= i <= s.len(),
    ensures
        forall|k: int| 0 <= k < words_from(s, i).len() ==> (#[trigger] words_from(s, i)[k]).len() > 0,
        forall|k: int, j: int|
            0 <= k < words_from(s, i).len() && 0 <= j < words_from(s, i)[k].len() ==> !is_space(
                #[trigger] words_from(s, i)[k][j],
            ),
    decreases s.len() - i,
{
    lemma_skip_spaces(s, i);
    let a = skip_spaces(s, i);
    lemma_skip_word(s, a);
    let b = skip_word(s, a);
    let all = words_from(s, i);
    if i <= a && a < b && b <= s.len() {
        lemma_words_from(s, b);
        let rest = words_from(s, b);
        assert(all == seq![s.subrange(a, b)] + rest);
        assert forall|k: int| 0 <= k < all.len() implies (#[trigger] all[k]).len() > 0 by {
            if k > 0 {
                assert(all[k] == rest[k - 1]);
            }
        }
        assert forall|k: int, j: int| 0 <= k < all.len() && 0 <= j < all[k].len() implies !is_space(
            #[trigger] all[k][j],
        ) by {
            if k > 0 {
                assert(all[k] == rest[k - 1]);
                assert(!is_space(rest[k - 1][j]));
            } else {
                assert(all[k][j] == s[a + j]);
            }
        }
    }
}

/// White space in front of a text changes none of its words; a run without white
/// space in front of a space is a word.
pub proof fn words_come_one_by_one(w: Seq<char>, c: char, rest: Seq<char>)
    requires
        is_space(c),
        forall|i: int| 0 <= i < w.len() ==> !is_space(#[trigger] w[i]),
    ensures
        words(seq![c] + rest) == words(rest),
        w.len() > 0 ==> words(w + seq![c] + rest) == seq![w] + words(rest),
        w.len() > 0 ==> words(w) == seq![w],
{
    let t = seq![c] + rest;
    lemma_words_shift(seq![c], rest, 0);
    assert(skip_spaces(t, 0) == skip_spaces(t, 1));
    lemma_skip_spaces(t, 1);
    assert(words_from(t, 0) =~= words_from(t, 1));
    if w.len() > 0 {
        let n = w.len() as int;
        let s = w + t;
        assert(s =~= w + seq![c] + rest);
        assert(s[0] == w[0]);
        assert forall|i: int| 0 <= i < n implies !is_space(#[trigger] s[i]) by {
            assert(s[i] == w[i]);
        }
        assert(is_space(s[n]));
        lemma_word_end(s, 0, n);
        assert(s.subrange(0, n) =~= w);
        lemma_words_shift(w, t, 0);
        assert(words(s) =~= seq![w] + words(t));
        assert(w[0] == w[0]);
        lemma_word_end(w, 0, n);
        assert(w.subrange(0, n) =~= w);
        assert(words_from(w, n) =~= Seq::<Seq<char>>::empty());
        assert(words(w) =~= seq![w]);
    }
}

proof fn lemma_word_end(s: Seq<char>, i: int, n: int)
    requires
        0 <= i <= n <= s.len(),
        forall|j: int| i <= j < n ==> !is_space(#[trigger] s[j]),
        n < s.len() ==> is_space(s[n]),
    ensures
        skip_word(s, i) == n,
    decreases n - i,
{
    if i < n {
        assert(!is_space(s[i]));
        lemma_word_end(s, i + 1, n);
    }
}

proof fn lemma_words_shift(p: Seq<char>, s: Seq<char>, i: int)
    requires
        0 <= i <= s.len(),
    ensures
        words_from(p + s, p.len() + i) == words_from(s, i),
    decreases s.len() - i,
{
    let t = p + s;
    lemma_skip_shift(p, s, i);
    lemma_skip_spaces(s, i);
    let a = skip_spaces(s, i);
    lemma_skip_shift(p, s, a);
    lemma_skip_word(s, a);
    let b = skip_word(s, a);
    if i <= a && a < b && b <= s.len() {
        lemma_words_shift(p, s, b);
        assert(t.subrange(p.len() + a, p.len() + b) =~= s.subrange(a, b));
    } else {
        assert(words_from(t, p.len() + i) =~= words_from(s, i));
    }
}

proof fn lemma_skip_shift(p: Seq<char>, s: Seq<char>, i: int)
    requires
        0 <= i <= s.len(),
    ensures
        skip_spaces(p + s, p.len() + i) == p.len() + skip_spaces(s, i),
        skip_word(p + s, p.len() + i) == p.len() + skip_word(s, i),
    decreases s.len() - i,
{
    if i < s.len() {
        assert((p + s)[p.len() + i] == s[i]);
        lemma_skip_shift(p, s, i + 1);
    }
}

/// Decimal writing: a number below ten is one character, counted from `0`; another
/// is its tenth with one more such character behind.
pub proof fn decimal_writes_tens(n: nat, d: nat)
    requires
        d < 10,
    ensures
        decimal(d).len() == 1,
        decimal(d)[0] as u32 == 48 + d,
        n > 0 ==> decimal(10 * n + d) == decimal(n) + decimal(d),
{
    if n > 0 {
        assert((10 * n + d) / 10 == n);
        assert((10 * n + d) % 10 == d);
        assert(decimal(10 * n + d) =~= decimal(n) + decimal(d));
    }
}

/// What is read as a number is digits, with at most one `+` in front; one digit
/// more makes ten times the number and the digit; leading zeros do not matter.
pub proof fn a_number_is_read_digit_by_digit(s: Seq<char>, max: nat)
    ensures
        match number(s, max) {
            Some(n) => n <= max && s.len() > 0 && is_digit(s.last()) && forall|i: int|
                0 < i < s.len() ==> is_digit(#[trigger] s[i]),
            None => true,
        },
        number(s, max) is Some && s.len() > 0 && s[0] != '+' ==> is_digit(s[0]),
        s.len() == 0 ==> number(s, max) is None,
        forall|d: nat| #![trigger s.push(digit(d))]
            d < 10 && number(s, max) is Some ==> number(s.push(digit(d)), max) == (if 10 * number(
                s,
                max,
            )->0 + d <= max {
                Some((10 * number(s, max)->0 + d) as nat)
            } else {
                None
            }),
{
    let u = unsigned_digits(s);
    if number(s, max) is Some {
        assert forall|i: int| 0 < i < s.len() implies is_digit(#[trigger] s[i]) by {
            if s[0] == '+' {
                assert(u[i - 1] == s[i]);
            } else {
                assert(u[i] == s[i]);
            }
        }
        assert(u.last() == s.last());
        if s[0] != '+' {
            assert(u[0] == s[0]);
        }
    }
    assert forall|d: nat| #![trigger s.push(digit(d))]
        d < 10 && number(s, max) is Some implies number(s.push(digit(d)), max) == (if 10 * number(
        s,
        max,
    )->0 + d <= max {
        Some((10 * number(s, max)->0 + d) as nat)
    } else {
        None
    }) by {
        let t = s.push(digit(d));
        assert(t[0] == s[0]);
        assert(unsigned_digits(t) =~= u.push(digit(d)));
        assert(u.push(digit(d)).drop_last() =~= u);
        assert(all_digits(u.push(digit(d))));
    }
}

/// Digits without a leading zero are the decimal writing of their value.
pub proof fn digits_are_the_writing_of_their_value(s: Seq<char>)
    requires
        s.len() > 0,
        all_digits(s),
        s.len() > 1 ==> s[0] != '0',
    ensures
        decimal(digits_value(s)) == s,
        s[0] != '0' ==> digits_value(s) > 0,
    decreases s.len(),
{
    let t = s.drop_last();
    let c = s.last();
    assert(is_digit(c));
    let d = (c as u32 - '0' as u32) as nat;
    assert(digit(d) == c);
    if s.len() == 1 {
        assert(t =~= Seq::<char>::empty());
        assert(digits_value(t) == 0);
        assert(digits_value(s) == d);
        assert(decimal(d) =~= s);
    } else {
        assert(t[0] == s[0]);
        assert forall|i: int| 0 <= i < t.len() implies is_digit(#[trigger] t[i]) by {
            assert(is_digit(s[i]));
        }
        digits_are_the_writing_of_their_value(t);
        decimal_writes_tens(digits_value(t), d);
        assert(decimal(d) =~= seq![c]);
        assert(decimal(digits_value(s)) =~= s);
    }
}

/// Texts without a character, joined by it, are the pieces that splitting at it
/// gives.
pub proof fn joining_is_undone_by_splitting(parts: Seq<Seq<char>>, c: char)
    requires
        parts.len() > 0,
        forall|i: int| 0 <= i < parts.len() ==> !has_char(#[trigger] parts[i], c),
    ensures
        split(join(parts, seq![c]), c) == parts,
    decreases parts.len(),
{
    joining_puts_the_separator_between(parts, seq![c]);
    if parts.len() == 1 {
        lemma_split_one(parts[0], c);
        assert(parts =~= seq![parts[0]]);
    } else {
        let rest = parts.skip(1);
        assert forall|i: int| 0 <= i < rest.len() implies !has_char(#[trigger] rest[i], c) by {
            assert(rest[i] == parts[i + 1]);
        }
        joining_is_undone_by_splitting(rest, c);
        lemma_split_head(parts[0], c, join(rest, seq![c]));
        assert(parts =~= seq![parts[0]] + rest);
    }
}

/// Non-empty texts without a character, joined by it, never have it twice in a row,
/// nor at an end.
pub proof fn joined_pieces_are_apart(
    parts: Seq<Seq<char>>,
    c: char,
    s: Seq<char>,
    d: Seq<char>,
)
    requires
        parts.len() > 0,
        forall|i: int|
            0 <= i < parts.len() ==> (#[trigger] parts[i]).len() > 0 && !has_char(parts[i], c),
        s == join(parts, seq![c]),
        d == seq![c, c],
    ensures
        s.len() > 0,
        s[0] != c,
        s.last() != c,
        forall|j: int| !#[trigger] at(s, d, j),
    decreases parts.len(),
{
    joining_puts_the_separator_between(parts, seq![c]);
    let a = parts[0];
    lemma_free_index(a, c);
    let n = a.len() as int;
    if parts.len() == 1 {
        assert forall|j: int| !#[trigger] at(s, d, j) by {
            if at(s, d, j) {
                assert(s.subrange(j, j + 2)[0] == s[j]);
            }
        }
    } else {
        let rest = parts.skip(1);
        assert forall|i: int| 0 <= i < rest.len() implies (#[trigger] rest[i]).len() > 0
            && !has_char(rest[i], c) by {
            assert(rest[i] == parts[i + 1]);
        }
        let r = join(rest, seq![c]);
        joined_pieces_are_apart(rest, c, r, d);
        assert(s == a + seq![c] + r);
        assert(s.last() == r.last());
        assert(s[0] == a[0]);
        assert forall|j: int| !#[trigger] at(s, d, j) by {
            if at(s, d, j) {
                assert(s.subrange(j, j + 2)[0] == s[j]);
                assert(s.subrange(j, j + 2)[1] == s[j + 1]);
                if j < n {
                    assert(s[j] == a[j]);
                } else if j == n {
                    assert(s[j + 1] == r[0]);
                } else {
                    assert(r.subrange(j - n - 1, j - n + 1) =~= s.subrange(j, j + 2));
                    assert(at(r, d, j - n - 1));
                }
            }
        }
    }
}

/// Powers of ten.
pub open spec fn tens(unit: nat) -> bool
    decreases unit,
{
    unit == 1 || (unit > 1 && unit % 10 == 0 && tens(unit / 10))
}

/// What the digits behind a point stand for, the first of them in steps of `unit`.
pub open spec fn behind_point(s: Seq<char>, unit: nat) -> nat
    decreases s.len(),
{
    if s.len() == 0 {
        0
    } else {
        (s[0] as u32 - 48) as nat * unit + behind_point(s.skip(1), unit / 10)
    }
}

/// The digits behind a point stand for the parts that they were made from, and end
/// in no zero.
pub proof fn a_fraction_stands_for_its_parts(f: nat, unit: nat)
    requires
        tens(unit),
        f < 10 * unit,
    ensures
        behind_point(fraction(f, unit), unit) == f,
        all_digits(fraction(f, unit)),
        f == 0 ==> fraction(f, unit).len() == 0,
        f > 0 ==> fraction(f, unit).len() > 0 && fraction(f, unit).last() != '0',
    decreases unit,
{
    if f > 0 {
        let d = (f / unit) % 10;
        assert(f / unit < 10) by (nonlinear_arith)
            requires
                f < 10 * unit,
                unit > 0,
        ;
        assert(d == f / unit);
        let r = f % unit;
        vstd::arithmetic::div_mod::lemma_fundamental_div_mod(f as int, unit as int);
        vstd::arithmetic::div_mod::lemma_mod_bound(f as int, unit as int);
        let rest = fraction(r, unit / 10);
        let all = fraction(f, unit);
        assert(all =~= seq![digit(d)] + rest);
        assert(all.skip(1) =~= rest);
        assert(digit(d) as u32 - 48 == d);
        if unit == 1 {
            assert(r == 0);
            assert(rest =~= Seq::<char>::empty());
            assert(behind_point(rest, 0) == 0);
        } else {
            assert(r < 10 * (unit / 10));
            a_fraction_stands_for_its_parts(r, unit / 10);
        }
        assert(d * unit == unit * d) by (nonlinear_arith);
        assert forall|i: int| 0 <= i < all.len() implies is_digit(#[trigger] all[i]) by {
            if i > 0 {
                assert(all[i] == rest[i - 1]);
            }
        }
        if r == 0 {
            assert(all.last() == digit(d));
            assert(d > 0);
        } else {
            assert(all.last() == rest.last());
        }
    } else {
        assert(fraction(f, unit) =~= Seq::<char>::empty());
    }
}

proof fn lemma_units(n: nat, f: nat, unit: nat)
    requires
        f < unit,
    ensures
        (n * unit + f) / unit == n,
        (n * unit + f) % unit == f,
        n > 0 ==> n * unit + f >= unit,
{
    vstd::arithmetic::div_mod::lemma_fundamental_div_mod_converse(
        (n * unit + f) as int,
        unit as int,
        n as int,
        f as int,
    );
    if n > 0 {
        assert(n * unit >= unit) by (nonlinear_arith)
            requires
                n >= 1,
        ;
    }
}

/// The steps behind the point of a second, a millisecond and a microsecond are powers
/// of ten.
pub proof fn the_steps_behind_a_point_are_tens()
    ensures
        tens(100),
        tens(100_000),
        tens(100_000_000),
{
    assert(tens(1));
    assert(tens(10));
    assert(tens(100));
    assert(tens(1_000));
    assert(tens(10_000));
    assert(tens(100_000));
    assert(tens(1_000_000));
    assert(tens(10_000_000));
    assert(tens(100_000_000));
}

/// A duration is written in the largest unit of which there is one: whole units as
/// they are, and the rest behind a point.
pub proof fn a_duration_is_written_in_its_largest_unit(n: nat, f: nat)
    ensures
        n < 1000 ==> duration(n) == decimal(n) + "ns"@,
        0 < n < 1000 ==> duration(n * 1000) == decimal(n) + "µs"@,
        0 < n < 1000 ==> duration(n * 1_000_000) == decimal(n) + "ms"@,
        0 < n ==> duration(n * 1_000_000_000) == decimal(n) + "s"@,
        0 < n < 1000 && 0 < f < 1000 ==> duration(n * 1000 + f) == decimal(n) + "."@ + fraction(
            f,
            100,
        ) + "µs"@,
        0 < n < 1000 && 0 < f < 1_000_000 ==> duration(n * 1_000_000 + f) == decimal(n) + "."@
            + fraction(f, 100_000) + "ms"@,
        0 < n && 0 < f < 1_000_000_000 ==> duration(n * 1_000_000_000 + f) == decimal(n) + "."@
            + fraction(f, 100_000_000) + "s"@,
{
    lemma_units(n, 0, 1000);
    lemma_units(n, 0, 1_000_000);
    lemma_units(n, 0, 1_000_000_000);
    if 0 < f < 1000 {
        lemma_units(n, f, 1000);
    }
    if 0 < f < 1_000_000 {
        lemma_units(n, f, 1_000_000);
    }
    if 0 < f < 1_000_000_000 {
        lemma_units(n, f, 1_000_000_000);
    }
}

} // verus!

//! Rules of the Kubernetes cluster lease.
//!
//! The lease's `renewTime` is a freshness signal: a holder whose `renewTime` is
//! older than the recovery timeout is considered dead and may be taken over.

use vstd::prelude::*;

use crate::coordination::ClusterAcquire;
use crate::text;

verus! {

/// What a `Lease` object records, as far as coordination reads it.
#[derive(Debug)]
pub struct LeaseRecord {
    /// The recorded holder, if any.
    pub holder_identity: Option<String>,
    /// How long ago the lease was last renewed, in nanoseconds: nothing when no
    /// renewal is recorded or when it lies in the future.
    pub age: Option<u128>,
    /// The recorded lease duration.
    pub lease_duration_seconds: Option<i32>,
}

/// Whether the lease names `me` as its holder.
pub fn held_by(spec: &LeaseRecord, me: &str) -> (r: bool)
    ensures
        r == (text::opt_view(spec.holder_identity) == Some(me@)),
{
    match &spec.holder_identity {
        Some(h) => text::same(h.as_str(), me),
        None => false,
    }
}

/// What to do about a lease in order to hold it.
#[derive(Debug)]
pub enum AcquirePlan {
    /// There is none: create it for ourselves.
    Create,
    /// Replace what it records with ourselves as the holder.
    Replace,
    /// Leave it to its live holder.
    Leave { holder: String, since_renew: u128 },
}

/// A lease that its recorded holder may no longer claim.
pub open spec fn takeable(rec: LeaseRecord, me: Seq<char>, recovery_timeout: u128) -> bool {
    match rec.holder_identity {
        None => true,
        Some(h) => {
            ||| h@ == me
            ||| h@.len() == 0
            ||| match rec.age {
                Some(age) => age >= recovery_timeout,
                None => true,
            }
        },
    }
}

/// Decide how to acquire the lease that `current` records.
///
/// A lease that is missing is created; one that we hold, that is unowned, that
/// records no renewal or whose holder has been silent for the recovery timeout is
/// replaced; any other is left to its holder.
pub fn plan_acquire(current: &Option<LeaseRecord>, me: &str, recovery_timeout: u128) -> (r:
    AcquirePlan)
    ensures
        match *current {
            None => r is Create,
            Some(rec) => if takeable(rec, me@, recovery_timeout) {
                r is Replace
            } else {
                r matches AcquirePlan::Leave { holder, since_renew } && Some(holder@)
                    == text::opt_view(rec.holder_identity) && Some(since_renew) == rec.age
            },
        },
        *current matches Some(rec) ==> (r is Leave <==> (rec.holder_identity matches Some(h) && h@
            != me@ && h@.len() > 0) && (rec.age matches Some(age) && age < recovery_timeout)),
{
    match current {
        None => AcquirePlan::Create,
        Some(rec) => {
            if held_by(rec, me) {
                return AcquirePlan::Replace;
            }
            match &rec.holder_identity {
                None => AcquirePlan::Replace,
                Some(h) => {
                    if h.as_str().is_empty() {
                        return AcquirePlan::Replace;
                    }
                    match rec.age {
                        None => AcquirePlan::Replace,
                        Some(age) => {
                            if age >= recovery_timeout {
                                AcquirePlan::Replace
                            } else {
                                AcquirePlan::Leave { holder: h.clone(), since_renew: age }
                            }
                        },
                    }
                },
            }
        },
    }
}

/// The outcome of an acquisition that followed a plan.
pub fn acquired(plan: AcquirePlan) -> (r: ClusterAcquire)
    ensures
        match plan {
            AcquirePlan::Leave { holder, since_renew } => r == (ClusterAcquire::HeldByLiveHolder {
                holder,
                since_renew,
            }),
            _ => r is Acquired,
        },
{
    match plan {
        AcquirePlan::Leave { holder, since_renew } => ClusterAcquire::HeldByLiveHolder {
            holder,
            since_renew,
        },
        _ => ClusterAcquire::Acquired,
    }
}

/// Decide how to renew: an existing lease is replaced, a missing one created.
pub fn plan_renew(current: &Option<LeaseRecord>) -> (r: AcquirePlan)
    ensures
        (*current is Some) ==> r is Replace,
        (*current is None) ==> r is Create,
{
    match current {
        Some(_) => AcquirePlan::Replace,
        None => AcquirePlan::Create,
    }
}

/// Decide how to release: only a lease that we still hold is cleared, and the
/// cleared lease keeps its duration.
pub fn plan_release(current: &Option<LeaseRecord>, me: &str) -> (r: Option<LeaseRecord>)
    ensures
        match *current {
            Some(rec) if text::opt_view(rec.holder_identity) == Some(me@) => r == Some(
                LeaseRecord {
                    holder_identity: None,
                    age: None,
                    lease_duration_seconds: rec.lease_duration_seconds,
                },
            ),
            _ => r is None,
        },
{
    match current {
        Some(rec) => {
            if held_by(rec, me) {
                Some(
                    LeaseRecord {
                        holder_identity: None,
                        age: None,
                        lease_duration_seconds: rec.lease_duration_seconds,
                    },
                )
            } else {
                None
            }
        },
        None => None,
    }
}

/// A lease of another holder whose renewal is on record is taken over exactly when the
/// holder has been silent for the recovery timeout or longer.
pub proof fn a_silent_holder_is_taken_over(
    rec: LeaseRecord,
    me: Seq<char>,
    recovery_timeout: u128,
    age: u128,
)
    requires
        rec.holder_identity matches Some(h) && h@ != me && h@.len() > 0,
        rec.age == Some(age),
    ensures
        takeable(rec, me, recovery_timeout) <==> age >= recovery_timeout,
{
}

/// A lease that may be taken over at some age may be at every greater age, and under
/// every shorter timeout.
pub proof fn silence_only_counts_for_a_take_over(
    a: LeaseRecord,
    b: LeaseRecord,
    me: Seq<char>,
    longer: u128,
    shorter: u128,
)
    requires
        b.holder_identity == a.holder_identity,
        a.age matches Some(x) && (b.age matches Some(y) && x <= y),
        shorter <= longer,
        takeable(a, me, longer),
    ensures
        takeable(b, me, shorter),
{
}

/// A lease that we hold ourselves, that nobody holds or that records no renewal is ours
/// to take, whatever its age.
pub proof fn a_lease_without_a_live_holder_is_taken(
    rec: LeaseRecord,
    me: Seq<char>,
    recovery_timeout: u128,
)
    requires
        rec.age is None || rec.holder_identity is None || (rec.holder_identity matches Some(h) && (h@
            == me || h@.len() == 0)),
    ensures
        takeable(rec, me, recovery_timeout),
{
}

/// No node takes a lease over while another holder is fresh.
pub proof fn a_fresh_holder_keeps_its_lease(rec: LeaseRecord, me: Seq<char>, recovery_timeout: u128)
    requires
        rec.holder_identity matches Some(h) && h@ != me && h@.len() > 0,
        rec.age matches Some(age) && age < recovery_timeout,
    ensures
        !takeable(rec, me, recovery_timeout),
{
}

// ── Names ───────────────────────────────────────────────────────────────────

/// The character that stands for `c` in a lease name.
pub open spec fn lease_char(c: char) -> char {
    let l = text::lower(c);
    if text::is_alnum(l) || l == '-' || l == '.' {
        l
    } else {
        '-'
    }
}

/// `s` mapped to lease characters, cut to 200.
pub open spec fn lease_chars(s: Seq<char>) -> Seq<char> {
    let t = s.map_values(|c: char| lease_char(c));
    if t.len() > 200 {
        t.take(200)
    } else {
        t
    }
}

/// The first position from `i` on with an ASCII letter or digit, or the end.
pub open spec fn first_alnum(s: Seq<char>, i: int) -> int
    decreases s.len() - i,
{
    if i < 0 || i >= s.len() || text::is_alnum(s[i]) {
        i
    } else {
        first_alnum(s, i + 1)
    }
}

/// The position after the last ASCII letter or digit of the first `i` characters,
/// or 0.
pub open spec fn after_last_alnum(s: Seq<char>, i: int) -> int
    decreases i,
{
    if i <= 0 || i > s.len() || text::is_alnum(s[i - 1]) {
        i
    } else {
        after_last_alnum(s, i - 1)
    }
}

/// `s` without leading and trailing characters other than letters and digits.
pub open spec fn trim_to_alnum(s: Seq<char>) -> Seq<char> {
    let b = after_last_alnum(s, s.len() as int);
    let a = first_alnum(s, 0);
    if a < b {
        s.subrange(a, b)
    } else {
        Seq::empty()
    }
}

/// The labels that `pieces` leave: each piece without leading and trailing
/// characters other than letters and digits, unless nothing is left of it.
pub open spec fn labels(pieces: Seq<Seq<char>>) -> Seq<Seq<char>>
    decreases pieces.len(),
{
    if pieces.len() == 0 {
        Seq::empty()
    } else {
        let label = trim_to_alnum(pieces[0]);
        if label.len() > 0 {
            seq![label] + labels(pieces.skip(1))
        } else {
            labels(pieces.skip(1))
        }
    }
}

/// The labels of the lease name for `raw`.
pub open spec fn lease_labels(raw: Seq<char>) -> Seq<Seq<char>> {
    labels(text::split(lease_chars(raw), '.'))
}

/// The lease name for `raw`: its labels with a dot between each two.
pub open spec fn lease_name(raw: Seq<char>) -> Seq<char> {
    if lease_labels(raw).len() == 0 {
        "ublk-azblob"@
    } else {
        text::join(lease_labels(raw), "."@)
    }
}

/// `s` without leading and trailing characters other than letters and digits.
fn trimmed_label(s: &str) -> (r: String)
    ensures
        r@ == trim_to_alnum(s@),
{
    let t = text::chars_of(s);
    let mut a: usize = 0;
    while a < t.len() && !text::is_alnum_char(t[a])
        invariant
            a <= t@.len(),
            first_alnum(t@, 0) == first_alnum(t@, a as int),
        decreases t@.len() - a,
    {
        a = a + 1;
    }
    let mut b: usize = t.len();
    while b > 0 && !text::is_alnum_char(t[b - 1])
        invariant
            b <= t@.len(),
            after_last_alnum(t@, t@.len() as int) == after_last_alnum(t@, b as int),
        decreases b,
    {
        b = b - 1;
    }
    if a < b {
        text::slice_of(&t, a, b)
    } else {
        String::new()
    }
}

/// Sanitize an arbitrary string into a DNS-1123 subdomain suitable for a
/// Kubernetes object name: at most 200 characters, in labels of lower-case
/// letters, digits and `-` that begin and end with a letter or digit, with a dot
/// between each two.
pub fn sanitize_lease_name(raw: &str) -> (r: String)
    ensures
        r@ == lease_name(raw@),
{
    let v = text::chars_of(raw);
    let mut t: Vec<char> = Vec::new();
    let ghost all = raw@.map_values(|c: char| lease_char(c));
    let mut i: usize = 0;
    while i < v.len() && t.len() < 200
        invariant
            v@ == raw@,
            all == raw@.map_values(|c: char| lease_char(c)),
            i <= v@.len(),
            i == t@.len(),
            t@.len() <= 200,
            t@ == all.take(i as int),
        decreases v@.len() - i,
    {
        let l = text::lower_char(v[i]);
        let c = if text::is_alnum_char(l) || l == '-' || l == '.' {
            l
        } else {
            '-'
        };
        t.push(c);
        assert(all.take(i + 1) == all.take(i as int).push(all[i as int]));
        i = i + 1;
    }
    proof {
        assert(all.take(all.len() as int) == all);
        assert(t@ == lease_chars(raw@));
        assert(t@.subrange(0, t@.len() as int) == t@);
    }
    let mapped = text::slice_of(&t, 0, t.len());
    let pieces = text::split_at(mapped.as_str(), '.');
    let mut out: Vec<String> = Vec::new();
    let mut k: usize = 0;
    proof {
        assert(text::views(pieces@).skip(0) == text::views(pieces@));
        assert(text::views(out@) + lease_labels(raw@) == lease_labels(raw@));
    }
    while k < pieces.len()
        invariant
            k <= pieces@.len(),
            text::views(out@) + labels(text::views(pieces@).skip(k as int)) == lease_labels(raw@),
        decreases pieces@.len() - k,
    {
        let label = trimmed_label(pieces[k].as_str());
        let ghost rest = text::views(pieces@).skip(k as int);
        let ghost before = text::views(out@);
        assert(rest[0] == pieces@[k as int]@);
        assert(rest.skip(1) == text::views(pieces@).skip(k + 1));
        if !label.as_str().is_empty() {
            out.push(label);
            proof {
                assert(text::views(out@) == before.push(label@));
                assert(before.push(label@) + labels(rest.skip(1)) == before + labels(rest));
            }
        }
        k = k + 1;
    }
    proof {
        assert(labels(text::views(pieces@).skip(k as int)) == Seq::<Seq<char>>::empty());
        assert(text::views(out@) == lease_labels(raw@));
        assert(text::views(out@).skip(0) == text::views(out@));
    }
    if out.len() == 0 {
        "ublk-azblob".to_owned()
    } else {
        text::join_all(&out, 0, ".")
    }
}

/// A DNS-1123 label: not empty, made of lower-case letters, digits and `-`, the
/// first and the last of them a letter or digit.
pub open spec fn dns_label(s: Seq<char>) -> bool {
    &&& s.len() > 0
    &&& text::is_alnum(s[0])
    &&& text::is_alnum(s.last())
    &&& forall|i: int|
        0 <= i < s.len() ==> {
            let c = #[trigger] s[i];
            text::is_digit(c) || ('a' <= c && c <= 'z') || c == '-'
        }
}

/// Every lease name is a DNS-1123 subdomain of at most 200 characters: each of its
/// parts between dots is a DNS-1123 label.
pub proof fn lease_names_are_valid(raw: Seq<char>)
    ensures
        1 <= lease_name(raw).len() <= 200,
        forall|i: int|
            0 <= i < text::split(lease_name(raw), '.').len() ==> dns_label(
                #[trigger] text::split(lease_name(raw), '.')[i],
            ),
{
    let t = lease_chars(raw);
    let all = lease_labels(raw);
    assert forall|i: int| 0 <= i < t.len() implies {
        let c = #[trigger] t[i];
        text::is_digit(c) || ('a' <= c && c <= 'z') || c == '-' || c == '.'
    } by {
        assert(t[i] == lease_char(raw[i]));
    }
    lemma_pieces(t, 0);
    lemma_labels(text::split(t, '.'));
    reveal_strlit("ublk-azblob");
    reveal_strlit(".");
    if all.len() == 0 {
        let n = "ublk-azblob"@;
        text::lemma_index_free(n, '.');
        text::lemma_split_one(n, '.');
    } else {
        lemma_split_join(all, all.len() as int);
        assert(all.take(all.len() as int) == all);
        lemma_join_len(all, all.len() as int);
        assert(all[0].len() > 0);
    }
}

/// The lengths of `s`, each with one more.
spec fn weight(s: Seq<Seq<char>>) -> nat
    decreases s.len(),
{
    if s.len() == 0 {
        0
    } else {
        weight(s.skip(1)) + s[0].len() + 1
    }
}

proof fn lemma_weight_push(s: Seq<Seq<char>>, x: Seq<char>)
    ensures
        weight(s.push(x)) == weight(s) + x.len() + 1,
    decreases s.len(),
{
    reveal_with_fuel(weight, 2);
    if s.len() == 0 {
        assert(s.push(x).skip(1) =~= Seq::<Seq<char>>::empty());
    } else {
        lemma_weight_push(s.skip(1), x);
        assert(s.push(x).skip(1) =~= s.skip(1).push(x));
    }
}

/// The pieces of lease characters hold no dot, and together are as long as the
/// whole.
proof fn lemma_pieces(t: Seq<char>, i: int)
    requires
        0 <= i <= t.len(),
        forall|i: int|
            0 <= i < t.len() ==> {
                let c = #[trigger] t[i];
                text::is_digit(c) || ('a' <= c && c <= 'z') || c == '-' || c == '.'
            },
    ensures
        weight(text::split_from(t, '.', i)) == t.len() - i + 1,
        forall|j: int|
            0 <= j < text::split_from(t, '.', i).len() ==> plain(
                #[trigger] text::split_from(t, '.', i)[j],
            ),
    decreases t.len() - i,
{
    reveal_with_fuel(weight, 2);
    text::lemma_find_from(t, '.', i);
    let k = text::find_from(t, '.', i);
    let all = text::split_from(t, '.', i);
    if k < t.len() {
        lemma_pieces(t, k + 1);
        let rest = text::split_from(t, '.', k + 1);
        assert(all == seq![t.subrange(i, k)] + rest);
        assert(all.skip(1) =~= rest);
        assert forall|j: int| 0 <= j < all.len() implies plain(#[trigger] all[j]) by {
            if j > 0 {
                assert(all[j] == rest[j - 1]);
            }
        }
    } else {
        assert(all =~= seq![t.subrange(i, t.len() as int)]);
        assert(all.skip(1) =~= Seq::<Seq<char>>::empty());
    }
}

/// Lower-case letters, digits and `-`.
spec fn plain(s: Seq<char>) -> bool {
    forall|i: int|
        0 <= i < s.len() ==> {
            let c = #[trigger] s[i];
            text::is_digit(c) || ('a' <= c && c <= 'z') || c == '-'
        }
}

/// The labels of plain pieces are DNS-1123 labels, no longer than the pieces.
proof fn lemma_labels(pieces: Seq<Seq<char>>)
    requires
        forall|j: int| 0 <= j < pieces.len() ==> plain(#[trigger] pieces[j]),
    ensures
        weight(labels(pieces)) <= weight(pieces),
        forall|j: int| 0 <= j < labels(pieces).len() ==> dns_label(#[trigger] labels(pieces)[j]),
    decreases pieces.len(),
{
    if pieces.len() > 0 {
        let t = pieces[0];
        let rest = pieces.skip(1);
        assert forall|j: int| 0 <= j < rest.len() implies plain(#[trigger] rest[j]) by {
            assert(rest[j] == pieces[j + 1]);
        }
        lemma_labels(rest);
        let label = trim_to_alnum(t);
        lemma_first_alnum(t, 0);
        lemma_after_last_alnum(t, t.len() as int);
        assert(plain(t));
        if label.len() > 0 {
            let all = seq![label] + labels(rest);
            assert(all.skip(1) =~= labels(rest));
            assert(dns_label(label));
            assert forall|j: int| 0 <= j < all.len() implies dns_label(#[trigger] all[j]) by {
                if j > 0 {
                    assert(all[j] == labels(rest)[j - 1]);
                }
            }
        }
    }
}

/// Labels that are joined by dots come apart at the dots again.
proof fn lemma_split_join(all: Seq<Seq<char>>, n: int)
    requires
        1 <= n <= all.len(),
        forall|j: int| 0 <= j < all.len() ==> dns_label(#[trigger] all[j]),
    ensures
        text::split(text::join_upto(all, "."@, n), '.') == all.take(n),
    decreases n,
{
    reveal_strlit(".");
    let last = all[n - 1];
    assert(dns_label(last));
    text::lemma_index_free(last, '.');
    if n == 1 {
        text::lemma_split_one(last, '.');
        assert(all.take(1) =~= seq![last]);
    } else {
        lemma_split_join(all, n - 1);
        let head = text::join_upto(all, "."@, n - 1);
        lemma_split_push(head, last, 0);
        assert("."@ =~= seq!['.']);
        assert(all.take(n) =~= all.take(n - 1).push(last));
    }
}

/// One more piece behind a dot.
proof fn lemma_split_push(s: Seq<char>, b: Seq<char>, i: int)
    requires
        0 <= i <= s.len(),
        !text::has_char(b, '.'),
    ensures
        text::split_from(s + seq!['.'] + b, '.', i) == text::split_from(s, '.', i).push(b),
    decreases s.len() - i,
{
    let w = s + seq!['.'] + b;
    text::lemma_find_from(s, '.', i);
    text::lemma_find_from(w, '.', i);
    let k = text::find_from(s, '.', i);
    if k < s.len() {
        assert forall|j: int| i <= j < k implies w[j] != '.' by {
            assert(s[j] == w[j]);
        }
        text::lemma_find_at(w, '.', i, k);
        lemma_split_push(s, b, k + 1);
        assert(w.subrange(i, k) =~= s.subrange(i, k));
        assert(text::split_from(w, '.', i) =~= text::split_from(s, '.', i).push(b));
    } else {
        let m = s.len() as int;
        assert forall|j: int| i <= j < m implies w[j] != '.' by {
            assert(s[j] == w[j]);
        }
        text::lemma_find_at(w, '.', i, m);
        assert(w.subrange(i, m) =~= s.subrange(i, m));
        text::lemma_free_index(b, '.');
        text::lemma_find_from(w, '.', m + 1);
        let e = text::find_from(w, '.', m + 1);
        if e < w.len() {
            assert(w[e] == b[e - m - 1]);
        }
        assert(w.subrange(m + 1, w.len() as int) =~= b);
        assert(text::split_from(w, '.', m + 1) =~= seq![b]);
        assert(text::split_from(w, '.', i) =~= text::split_from(s, '.', i).push(b));
    }
}

/// What is joined by dots is one shorter than its weight.
proof fn lemma_join_len(all: Seq<Seq<char>>, n: int)
    requires
        1 <= n <= all.len(),
    ensures
        text::join_upto(all, "."@, n).len() + 1 == weight(all.take(n)),
    decreases n,
{
    reveal_strlit(".");
    assert(all.take(n) =~= all.take(n - 1).push(all[n - 1]));
    lemma_weight_push(all.take(n - 1), all[n - 1]);
    if n > 1 {
        lemma_join_len(all, n - 1);
    } else {
        assert(all.take(0) =~= Seq::<Seq<char>>::empty());
    }
}

proof fn lemma_first_alnum(s: Seq<char>, i: int)
    requires
        0 <= i <= s.len(),
    ensures
        i <= first_alnum(s, i) <= s.len(),
        first_alnum(s, i) < s.len() ==> text::is_alnum(s[first_alnum(s, i)]),
    decreases s.len() - i,
{
    if i < s.len() && !text::is_alnum(s[i]) {
        lemma_first_alnum(s, i + 1);
    }
}

proof fn lemma_after_last_alnum(s: Seq<char>, i: int)
    requires
        0 <= i <= s.len(),
    ensures
        0 <= after_last_alnum(s, i) <= i,
        after_last_alnum(s, i) > 0 ==> text::is_alnum(s[after_last_alnum(s, i) - 1]),
    decreases i,
{
    if i > 0 && !text::is_alnum(s[i - 1]) {
        lemma_after_last_alnum(s, i - 1);
    }
}

/// A character of a lease name: letters in lower case, digits, `-` and `.` as they
/// are, and `-` for anything else.
pub proof fn a_lease_character_is_plain(c: char)
    ensures
        65 <= c as u32 <= 90 ==> lease_char(c) as u32 == c as u32 + 32,
        97 <= c as u32 <= 122 || 48 <= c as u32 <= 57 || c == '-' || c == '.' ==> lease_char(c) == c,
        !(65 <= c as u32 <= 90 || 97 <= c as u32 <= 122 || 48 <= c as u32 <= 57 || c == '-' || c
            == '.') ==> lease_char(c) == '-',
{
}

/// A name that is a DNS-1123 subdomain of at most 200 characters already is kept as
/// it is.
pub proof fn a_valid_lease_name_is_kept(s: Seq<char>)
    requires
        s.len() <= 200,
        forall|i: int|
            0 <= i < text::split(s, '.').len() ==> dns_label(#[trigger] text::split(s, '.')[i]),
    ensures
        lease_name(s) == s,
{
    reveal_strlit(".");
    assert("."@ =~= seq!['.']);
    let pieces = text::split(s, '.');
    text::splitting_is_undone_by_joining(s, '.');
    lemma_joined_labels_are_plain(pieces);
    assert(lease_chars(s) =~= s) by {
        assert forall|i: int| 0 <= i < s.len() implies lease_char(#[trigger] s[i]) == s[i] by {}
    }
    lemma_labels_kept(pieces);
}

/// Labels that are joined by dots are made of lower-case letters, digits, `-` and
/// dots.
proof fn lemma_joined_labels_are_plain(pieces: Seq<Seq<char>>)
    requires
        forall|i: int| 0 <= i < pieces.len() ==> dns_label(#[trigger] pieces[i]),
    ensures
        forall|i: int|
            0 <= i < text::join(pieces, seq!['.']).len() ==> lease_char(
                #[trigger] text::join(pieces, seq!['.'])[i],
            ) == text::join(pieces, seq!['.'])[i],
    decreases pieces.len(),
{
    text::joining_puts_the_separator_between(pieces, seq!['.']);
    let s = text::join(pieces, seq!['.']);
    if pieces.len() == 1 {
        assert(dns_label(pieces[0]));
    } else if pieces.len() > 1 {
        let rest = pieces.skip(1);
        assert forall|i: int| 0 <= i < rest.len() implies dns_label(#[trigger] rest[i]) by {
            assert(rest[i] == pieces[i + 1]);
        }
        lemma_joined_labels_are_plain(rest);
        assert(dns_label(pieces[0]));
        let n = pieces[0].len() as int;
        let r = text::join(rest, seq!['.']);
        assert forall|i: int| 0 <= i < s.len() implies lease_char(#[trigger] s[i]) == s[i] by {
            if i < n {
                assert(s[i] == pieces[0][i]);
            } else if i > n {
                assert(s[i] == r[i - n - 1]);
            }
        }
    }
}

proof fn lemma_labels_kept(pieces: Seq<Seq<char>>)
    requires
        forall|i: int| 0 <= i < pieces.len() ==> dns_label(#[trigger] pieces[i]),
    ensures
        labels(pieces) == pieces,
    decreases pieces.len(),
{
    if pieces.len() > 0 {
        let rest = pieces.skip(1);
        assert forall|i: int| 0 <= i < rest.len() implies dns_label(#[trigger] rest[i]) by {
            assert(rest[i] == pieces[i + 1]);
        }
        lemma_labels_kept(rest);
        let p = pieces[0];
        assert(dns_label(p));
        assert(trim_to_alnum(p) =~= p);
        assert(seq![p] + rest =~= pieces);
    } else {
        assert(labels(pieces) =~= pieces);
    }
}

/// Two texts that differ only in case have one lease name, and a text of more than
/// 200 characters is cut.
pub proof fn a_lease_name_goes_by_lower_case(s: Seq<char>)
    ensures
        lease_name(text::lower_text(s)) == lease_name(s),
        lease_chars(s).len() == (if s.len() > 200 {
            200
        } else {
            s.len() as int
        }),
        s.len() > 200 ==> lease_name(s) == lease_name(s.take(200)),
        lease_name(Seq::empty()) == "ublk-azblob"@,
{
    assert(text::lower_text(s).map_values(|c: char| lease_char(c)) =~= s.map_values(
        |c: char| lease_char(c),
    ));
    assert(lease_chars(text::lower_text(s)) =~= lease_chars(s));
    if s.len() > 200 {
        assert(lease_chars(s) =~= lease_chars(s.take(200)));
    }
    let none = Seq::<char>::empty();
    assert(lease_chars(none) =~= none);
    text::lemma_index_free(none, '.');
    text::lemma_split_one(none, '.');
    assert(trim_to_alnum(none) =~= none);
    let one = seq![none];
    assert(one.skip(1) =~= Seq::<Seq<char>>::empty());
    assert(labels(one.skip(1)) =~= Seq::<Seq<char>>::empty());
    assert(labels(one) =~= Seq::<Seq<char>>::empty());
}

} // verus!

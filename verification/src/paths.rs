//! File-system paths, as texts.
//!
//! Components are separated by `/`; empty components, and `.` components other
//! than a leading one, do not count.

use vstd::prelude::*;

use crate::text;

verus! {

/// How many leading characters come before the components: the root, or a leading
/// `.` component.
pub open spec fn lead(s: Seq<char>) -> int {
    if s.len() > 0 && (s[0] == '/' || (s[0] == '.' && (s.len() == 1 || s[1] == '/'))) {
        1
    } else {
        0
    }
}

/// The position after the last `/` among `s[from..to]`, or `from`.
pub open spec fn after_slash(s: Seq<char>, from: int, to: int) -> int
    decreases to - from,
{
    if to <= from || to > s.len() || s[to - 1] == '/' {
        to
    } else {
        after_slash(s, from, to - 1)
    }
}

/// Where the last component begins.
pub open spec fn last_start(s: Seq<char>) -> int {
    after_slash(s, lead(s), s.len() as int)
}

/// Where the text ends without its last component and the slash before it.
pub open spec fn last_cut(s: Seq<char>) -> int {
    if last_start(s) > lead(s) {
        last_start(s) - 1
    } else {
        lead(s)
    }
}

/// The last component does not count.
pub open spec fn idle(s: Seq<char>) -> bool {
    let p = s.skip(last_start(s));
    p.len() == 0 || p == seq!['.']
}

/// `s` without the trailing components that do not count.
pub open spec fn stripped(s: Seq<char>) -> Seq<char>
    decreases s.len(),
{
    if s.len() > lead(s) && idle(s) && 0 <= last_cut(s) < s.len() {
        stripped(s.take(last_cut(s)))
    } else {
        s
    }
}

/// The path without its final component: nothing for a root and for an empty
/// path.
pub open spec fn parent(s: Seq<char>) -> Option<Seq<char>> {
    let t = stripped(s);
    if t.len() > lead(t) {
        Some(stripped(t.take(last_cut(t))))
    } else if t.len() > 0 && t[0] == '.' {
        Some(Seq::empty())
    } else {
        None
    }
}

/// The final component, unless the path ends in a root or in `..`.
pub open spec fn file_name(s: Seq<char>) -> Option<Seq<char>> {
    let t = stripped(s);
    if t.len() > lead(t) && t.skip(last_start(t)) != seq!['.', '.'] {
        Some(t.skip(last_start(t)))
    } else {
        None
    }
}

/// `name` below `dir`; an absolute `name` stands for itself.
pub open spec fn join(dir: Seq<char>, name: Seq<char>) -> Seq<char> {
    if name.len() > 0 && name[0] == '/' {
        name
    } else if dir.len() > 0 && dir.last() != '/' {
        dir + "/"@ + name
    } else {
        dir + name
    }
}

proof fn lemma_after_slash(s: Seq<char>, from: int, to: int)
    requires
        0 <= from <= to <= s.len(),
    ensures
        from <= after_slash(s, from, to) <= to,
        after_slash(s, from, to) > from ==> s[after_slash(s, from, to) - 1] == '/',
    decreases to - from,
{
    if to > from && s[to - 1] != '/' {
        lemma_after_slash(s, from, to - 1);
    }
}

proof fn lemma_last(s: Seq<char>)
    ensures
        lead(s) <= s.len(),
        lead(s) <= last_start(s) <= s.len(),
        lead(s) <= last_cut(s) <= s.len(),
        s.len() > lead(s) ==> last_cut(s) < s.len(),
{
    lemma_after_slash(s, lead(s), s.len() as int);
}

fn lead_of(v: &Vec<char>) -> (r: usize)
    ensures
        r == lead(v@),
        r <= v@.len(),
{
    if v.len() > 0 && (v[0] == '/' || (v[0] == '.' && (v.len() == 1 || v[1] == '/'))) {
        1
    } else {
        0
    }
}

fn last_start_of(v: &Vec<char>) -> (r: usize)
    ensures
        r == last_start(v@),
{
    let from: usize = lead_of(v);
    let mut to: usize = v.len();
    while to > from && v[to - 1] != '/'
        invariant
            from == lead(v@),
            from <= to <= v@.len(),
            last_start(v@) == after_slash(v@, from as int, to as int),
        decreases to,
    {
        to = to - 1;
    }
    to
}

fn strip(v: &Vec<char>) -> (r: Vec<char>)
    ensures
        r@ == stripped(v@),
{
    let mut t: Vec<char> = Vec::new();
    let mut i: usize = 0;
    while i < v.len()
        invariant
            i <= v@.len(),
            t@ == v@.take(i as int),
        decreases v@.len() - i,
    {
        t.push(v[i]);
        assert(v@.take(i + 1) == v@.take(i as int).push(v@[i as int]));
        i = i + 1;
    }
    assert(t@ == v@);
    loop
        invariant
            stripped(t@) == stripped(v@),
        ensures
            t@ == stripped(v@),
        decreases t@.len(),
    {
        proof {
            lemma_last(t@);
        }
        let from: usize = lead_of(&t);
        let n: usize = t.len();
        let start: usize = last_start_of(&t);
        let ghost piece = t@.skip(start as int);
        let counts = !(n == start || (n - start == 1 && t[start] == '.'));
        proof {
            if n == start + 1 && t@[start as int] == '.' {
                assert(piece =~= seq!['.']);
            }
            if piece == seq!['.'] {
                assert(piece.len() == 1 && piece[0] == '.');
            }
            assert(counts == !idle(t@));
        }
        if n <= from || counts {
            break;
        }
        let cut: usize = if start > from {
            start - 1
        } else {
            from
        };
        assert(cut == last_cut(t@));
        let ghost had = t@;
        t.truncate(cut);
        assert(t@ == had.take(last_cut(had)));
    }
    t
}

/// The path without its final component.
pub fn parent_of(s: &str) -> (r: Option<String>)
    ensures
        text::opt_view(r) == parent(s@),
{
    let mut t = strip(&text::chars_of(s));
    proof {
        lemma_last(t@);
    }
    let from: usize = lead_of(&t);
    if t.len() > from {
        let start: usize = last_start_of(&t);
        let cut: usize = if start > from {
            start - 1
        } else {
            from
        };
        let ghost had = t@;
        t.truncate(cut);
        assert(t@ == had.take(last_cut(had)));
        let u = strip(&t);
        let r = text::slice_of(&u, 0, u.len());
        assert(r@ == u@);
        Some(r)
    } else if t.len() > 0 && t[0] == '.' {
        Some(String::new())
    } else {
        None
    }
}

/// The final component.
pub fn file_name_of(s: &str) -> (r: Option<String>)
    ensures
        text::opt_view(r) == file_name(s@),
{
    let t = strip(&text::chars_of(s));
    proof {
        lemma_last(t@);
    }
    let from: usize = lead_of(&t);
    let n: usize = t.len();
    let start: usize = last_start_of(&t);
    let ghost piece = t@.skip(start as int);
    let up = n - start == 2 && t[start] == '.' && t[start + 1] == '.';
    proof {
        if up {
            assert(piece =~= seq!['.', '.']);
        }
        if piece == seq!['.', '.'] {
            assert(piece.len() == 2 && piece[0] == '.' && piece[1] == '.');
        }
    }
    if n > from && !up {
        let r = text::slice_of(&t, start, n);
        assert(r@ == piece);
        Some(r)
    } else {
        None
    }
}

/// `name` below `dir`.
pub fn joined(dir: &str, name: &str) -> (r: String)
    ensures
        r@ == join(dir@, name@),
{
    let d = text::chars_of(dir);
    let n = text::chars_of(name);
    if n.len() > 0 && n[0] == '/' {
        name.to_owned()
    } else if d.len() > 0 && d[d.len() - 1] != '/' {
        text::concat3(dir, "/", name)
    } else {
        text::concat(dir, name)
    }
}

/// A name below a directory: the directory is its parent and the name its last
/// component; a slash behind it changes neither.
pub proof fn a_name_below_a_directory_is_found_there(dir: Seq<char>, name: Seq<char>)
    requires
        dir.len() > 0,
        name.len() > 0,
        name != seq!['.'],
        !text::has_char(name, '/'),
    ensures
        parent(dir + seq!['/'] + name) == Some(stripped(dir)),
        name != seq!['.', '.'] ==> file_name(dir + seq!['/'] + name) == Some(name),
        parent(dir + seq!['/'] + name + seq!['/']) == Some(stripped(dir)),
        name != seq!['.', '.'] ==> file_name(dir + seq!['/'] + name + seq!['/']) == Some(name),
{
    let s = dir + seq!['/'] + name;
    let k = dir.len() as int + 1;
    text::lemma_free_index(name, '/');
    assert forall|i: int| k <= i < s.len() implies #[trigger] s[i] != '/' by {
        assert(s[i] == name[i - k]);
    }
    assert(s[k - 1] == '/');
    assert(s[0] == dir[0]);
    lemma_component_start(s, lead(s), k, s.len() as int);
    assert(s.skip(k) =~= name);
    assert(s.take(k - 1) =~= dir);
    a_trailing_slash_does_not_matter(s);
}

proof fn lemma_component_start(s: Seq<char>, from: int, k: int, to: int)
    requires
        0 <= from <= k <= to <= s.len(),
        k > from ==> s[k - 1] == '/',
        forall|i: int| k <= i < to ==> #[trigger] s[i] != '/',
    ensures
        after_slash(s, from, to) == k,
    decreases to - k,
{
    if k < to {
        assert(s[to - 1] != '/');
        lemma_component_start(s, from, k, to - 1);
    }
}

/// A slash at the end of a path does not matter.
pub proof fn a_trailing_slash_does_not_matter(s: Seq<char>)
    requires
        s.len() > 0,
    ensures
        stripped(s + seq!['/']) == stripped(s),
        parent(s + seq!['/']) == parent(s),
        file_name(s + seq!['/']) == file_name(s),
{
    let t = s + seq!['/'];
    assert(t[0] == s[0]);
    if s.len() > 1 {
        assert(t[1] == s[1]);
    }
    assert(lead(t) == lead(s));
    assert(last_start(t) == t.len());
    assert(t.skip(t.len() as int).len() == 0);
    assert(t.take(s.len() as int) =~= s);
}

/// A name below the root has the root as its parent, the root has none, and a bare
/// name has an empty one.
pub proof fn a_name_below_the_root(name: Seq<char>)
    requires
        name.len() > 0,
        name != seq!['.'],
        name != seq!['.', '.'],
        !text::has_char(name, '/'),
    ensures
        parent(seq!['/'] + name) == Some(seq!['/']),
        file_name(seq!['/'] + name) == Some(name),
        parent(name) == Some(Seq::<char>::empty()),
        file_name(name) == Some(name),
        parent(seq!['/']) is None,
        file_name(seq!['/']) is None,
{
    let s = seq!['/'] + name;
    text::lemma_free_index(name, '/');
    assert forall|i: int| 1 <= i < s.len() implies #[trigger] s[i] != '/' by {
        assert(s[i] == name[i - 1]);
    }
    lemma_component_start(s, 1, 1, s.len() as int);
    assert(s.skip(1) =~= name);
    assert(s.take(1) =~= seq!['/']);
    assert(stripped(seq!['/']) == seq!['/']);
    if name.len() == 1 && name[0] == '.' {
        assert(name =~= seq!['.']);
    }
    assert(lead(name) == 0);
    lemma_component_start(name, 0, 0, name.len() as int);
    assert(name.skip(0) =~= name);
    assert(name.take(0) =~= Seq::<char>::empty());
    assert(stripped(Seq::<char>::empty()) == Seq::<char>::empty());
}

/// Joining puts one slash between a directory and a name; a name from the root
/// stands for itself.
pub proof fn joining_puts_one_slash_between(dir: Seq<char>, name: Seq<char>)
    ensures
        name.len() > 0 && name[0] == '/' ==> join(dir, name) == name,
        (name.len() == 0 || name[0] != '/') && dir.len() > 0 && dir.last() != '/' ==> join(dir, name)
            == dir + seq!['/'] + name,
        (name.len() == 0 || name[0] != '/') && (dir.len() == 0 || dir.last() == '/') ==> join(
            dir,
            name,
        ) == dir + name,
{
    reveal_strlit("/");
    assert("/"@ =~= seq!['/']);
}

} // verus!

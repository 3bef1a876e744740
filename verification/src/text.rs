//! Character-level helpers on names and paths.
//!
//! Every contract here is stated over `Seq<char>`, the view of `str` and
//! `String`. Names are ordered lexicographically by code point, which is the
//! order `str` has in Rust.

use vstd::prelude::*;

verus! {

/// The separator between the components of a path.
pub open spec fn is_separator(c: char) -> bool {
    c == '/'
}

/// Order on characters, by code point.
pub open spec fn char_lt(x: char, y: char) -> bool {
    (x as int) < (y as int)
}

/// `a` comes before `b`, or equals it, when both are read from position `i` on.
pub open spec fn name_le_from(a: Seq<char>, b: Seq<char>, i: int) -> bool
    decreases a.len() - i,
{
    if i < 0 || i >= a.len() {
        true
    } else if i >= b.len() {
        false
    } else if a[i] != b[i] {
        char_lt(a[i], b[i])
    } else {
        name_le_from(a, b, i + 1)
    }
}

/// Lexicographic order on names, by code point: a proper prefix comes first.
pub open spec fn name_le(a: Seq<char>, b: Seq<char>) -> bool {
    name_le_from(a, b, 0)
}

/// Read from any position on, two names are comparable.
pub proof fn lemma_name_le_from_total(a: Seq<char>, b: Seq<char>, i: int)
    requires
        0 <= i,
    ensures
        name_le_from(a, b, i) || name_le_from(b, a, i),
    decreases a.len() - i,
{
    if i < a.len() && i < b.len() && a[i] == b[i] {
        lemma_name_le_from_total(a, b, i + 1);
    }
}

/// Read from any position on, the order is transitive.
pub proof fn lemma_name_le_from_trans(a: Seq<char>, b: Seq<char>, c: Seq<char>, i: int)
    requires
        0 <= i,
        name_le_from(a, b, i),
        name_le_from(b, c, i),
    ensures
        name_le_from(a, c, i),
    decreases a.len() - i,
{
    if i < a.len() && i < b.len() && i < c.len() && a[i] == b[i] && b[i] == c[i] {
        lemma_name_le_from_trans(a, b, c, i + 1);
    }
}

/// Two names that agree up to `i` and come before each other from `i` on
/// are the same name.
pub proof fn lemma_name_le_from_antisym(a: Seq<char>, b: Seq<char>, i: int)
    requires
        0 <= i <= a.len(),
        i <= b.len(),
        a.take(i) == b.take(i),
        name_le_from(a, b, i),
        name_le_from(b, a, i),
    ensures
        a == b,
    decreases a.len() - i,
{
    if i < a.len() {
        assert(a.take(i + 1) =~= a.take(i).push(a[i]));
        assert(b.take(i + 1) =~= b.take(i).push(b[i]));
        lemma_name_le_from_antisym(a, b, i + 1);
    } else {
        assert(a.take(i) =~= a);
        assert(b.take(i) =~= b);
    }
}

/// Any two names are comparable.
pub proof fn lemma_name_le_total(a: Seq<char>, b: Seq<char>)
    ensures
        name_le(a, b) || name_le(b, a),
{
    lemma_name_le_from_total(a, b, 0);
}

/// The order on names is transitive.
pub proof fn lemma_name_le_trans(a: Seq<char>, b: Seq<char>, c: Seq<char>)
    requires
        name_le(a, b),
        name_le(b, c),
    ensures
        name_le(a, c),
{
    lemma_name_le_from_trans(a, b, c, 0);
}

/// Two names that come before each other are the same name.
pub proof fn lemma_name_le_antisym(a: Seq<char>, b: Seq<char>)
    requires
        name_le(a, b),
        name_le(b, a),
    ensures
        a == b,
{
    assert(a.take(0) =~= b.take(0));
    lemma_name_le_from_antisym(a, b, 0);
}

/// Every name comes before itself.
pub proof fn lemma_name_le_refl(a: Seq<char>)
    ensures
        name_le(a, a),
{
    lemma_name_le_total(a, a);
}

/// What a left-to-right scan of `s` has split off so far: the components
/// that a separator has closed, and the component still open.
pub open spec fn scan_components(s: Seq<char>) -> (Seq<Seq<char>>, Seq<char>)
    decreases s.len(),
{
    if s.len() == 0 {
        (Seq::empty(), Seq::empty())
    } else {
        let (closed, open) = scan_components(s.drop_last());
        if is_separator(s.last()) {
            if open.len() > 0 {
                (closed.push(open), Seq::empty())
            } else {
                (closed, open)
            }
        } else {
            (closed, open.push(s.last()))
        }
    }
}

/// The non-empty components of `s` between separators, in order.
pub open spec fn path_components(s: Seq<char>) -> Seq<Seq<char>> {
    let (closed, open) = scan_components(s);
    if open.len() > 0 {
        closed.push(open)
    } else {
        closed
    }
}

/// A component as `path_components` gives it: not empty, and free of separators.
pub open spec fn is_component(c: Seq<char>) -> bool {
    &&& c.len() > 0
    &&& forall|k: int| 0 <= k < c.len() ==> !is_separator(#[trigger] c[k])
}

/// What a scan has closed are components, and what it holds open has no
/// separator.
pub proof fn lemma_scan_components(s: Seq<char>)
    ensures
        forall|j: int|
            0 <= j < scan_components(s).0.len() ==> is_component(
                #[trigger] scan_components(s).0[j],
            ),
        forall|k: int|
            0 <= k < scan_components(s).1.len() ==> !is_separator(
                #[trigger] scan_components(s).1[k],
            ),
    decreases s.len(),
{
    if s.len() > 0 {
        lemma_scan_components(s.drop_last());
        let (closed, open) = scan_components(s.drop_last());
        if is_separator(s.last()) && open.len() > 0 {
            assert(scan_components(s).0 == closed.push(open));
            assert forall|j: int| 0 <= j < scan_components(s).0.len() implies is_component(
                #[trigger] scan_components(s).0[j],
            ) by {
                if j < closed.len() {
                    assert(scan_components(s).0[j] == closed[j]);
                }
            }
        }
    }
}

/// Every component of a path is non-empty and holds no separator.
pub proof fn lemma_path_components(s: Seq<char>)
    ensures
        forall|j: int|
            0 <= j < path_components(s).len() ==> is_component(#[trigger] path_components(s)[j]),
{
    lemma_scan_components(s);
}

/// The names that a vector of character vectors holds.
pub open spec fn views(v: Seq<Vec<char>>) -> Seq<Seq<char>> {
    v.map_values(|x: Vec<char>| x@)
}

/// The characters of `s`, in order.
pub fn to_chars(s: &str) -> (v: Vec<char>)
    ensures
        v@ == s@,
{
    let mut v: Vec<char> = Vec::new();
    for c in it: s.chars()
        invariant
            it.seq() == s@,
            v@ == it.seq().take(it.index()),
    {
        v.push(c);
    }
    v
}

/// Whether `s` begins with `prefix`.
pub fn starts_with(s: &Vec<char>, prefix: &Vec<char>) -> (r: bool)
    ensures
        r == prefix@.is_prefix_of(s@),
{
    if prefix.len() > s.len() {
        return false;
    }
    let mut i: usize = 0;
    while i < prefix.len()
        invariant
            i <= prefix.len() <= s.len(),
            forall|k: int| 0 <= k < i ==> s@[k] == prefix@[k],
        decreases prefix.len() - i,
    {
        if s[i] != prefix[i] {
            return false;
        }
        i += 1;
    }
    assert(prefix@ =~= s@.subrange(0, prefix@.len() as int));
    true
}

/// Whether the two hold the same characters.
pub fn same_chars(a: &Vec<char>, b: &Vec<char>) -> (r: bool)
    ensures
        r == (a@ == b@),
{
    if a.len() != b.len() {
        return false;
    }
    let mut i: usize = 0;
    while i < a.len()
        invariant
            i <= a.len() == b.len(),
            forall|k: int| 0 <= k < i ==> a@[k] == b@[k],
        decreases a.len() - i,
    {
        if a[i] != b[i] {
            return false;
        }
        i += 1;
    }
    assert(a@ =~= b@);
    true
}

/// Whether `a` comes before `b` in the order on names, or equals it.
pub fn chars_le(a: &Vec<char>, b: &Vec<char>) -> (r: bool)
    ensures
        r == name_le(a@, b@),
{
    let mut i: usize = 0;
    while i < a.len() && i < b.len()
        invariant
            i <= a.len(),
            i <= b.len(),
            name_le(a@, b@) == name_le_from(a@, b@, i as int),
        decreases a.len() - i,
    {
        if a[i] != b[i] {
            return a[i] < b[i];
        }
        i += 1;
    }
    i >= a.len()
}

/// The non-empty components of `path` between separators, in order.
pub fn split_path(path: &str) -> (parts: Vec<Vec<char>>)
    ensures
        views(parts@) == path_components(path@),
        forall|j: int| 0 <= j < parts@.len() ==> is_component(#[trigger] parts@[j]@),
{
    let chars = to_chars(path);
    let mut closed: Vec<Vec<char>> = Vec::new();
    let mut open: Vec<char> = Vec::new();
    let mut i: usize = 0;
    while i < chars.len()
        invariant
            i <= chars.len(),
            chars@ == path@,
            views(closed@) == scan_components(chars@.take(i as int)).0,
            open@ == scan_components(chars@.take(i as int)).1,
        decreases chars.len() - i,
    {
        let c = chars[i];
        proof {
            assert(chars@.take(i + 1).drop_last() =~= chars@.take(i as int));
            assert(chars@.take(i + 1).last() == c);
        }
        if c == '/' {
            if open.len() > 0 {
                let ghost before = views(closed@);
                let ghost piece = open@;
                closed.push(open);
                open = Vec::new();
                assert(views(closed@) =~= before.push(piece));
            }
        } else {
            open.push(c);
        }
        i += 1;
    }
    assert(chars@.take(i as int) =~= chars@);
    if open.len() > 0 {
        let ghost before = views(closed@);
        let ghost piece = open@;
        closed.push(open);
        assert(views(closed@) =~= before.push(piece));
    }
    proof {
        lemma_path_components(path@);
        assert forall|j: int| 0 <= j < closed@.len() implies is_component(
            #[trigger] closed@[j]@,
        ) by {
            assert(views(closed@)[j] == closed@[j]@);
            assert(path_components(path@)[j] == closed@[j]@);
        }
    }
    closed
}

} // verus!

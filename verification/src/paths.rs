//! The order in which repository-relative paths are listed.
//!
//! Paths are written with `/` between components and have no empty
//! component.  They are ordered component by component, each component by its
//! characters, a component that is a prefix of another coming first: the order
//! of `std::path::Path`.  On such paths that order is the lexicographic order of
//! their characters in which `/` comes before every other character.

use vstd::prelude::*;

verus! {

/// Sort key of a path character: the separator before every other character.
pub open spec fn path_char_key(c: char) -> int {
    if c == '/' {
        -1
    } else {
        (c as u32) as int
    }
}

/// `a` comes before `b` or equals it.
pub open spec fn path_le(a: Seq<char>, b: Seq<char>) -> bool
    decreases a.len(),
{
    if a.len() == 0 {
        true
    } else if b.len() == 0 {
        false
    } else if a[0] == b[0] {
        path_le(a.drop_first(), b.drop_first())
    } else {
        path_char_key(a[0]) < path_char_key(b[0])
    }
}

/// The paths of `s` are in ascending order.
pub open spec fn paths_sorted(s: Seq<Seq<char>>) -> bool {
    forall|i: int, j: int| 0 <= i < j < s.len() ==> path_le(s[i], s[j])
}

proof fn lemma_key_injective(c: char, d: char)
    requires
        c != d,
    ensures
        path_char_key(c) != path_char_key(d),
{
}

/// Any two paths are ordered one way or the other.
pub proof fn lemma_path_le_total(a: Seq<char>, b: Seq<char>)
    ensures
        path_le(a, b) || path_le(b, a),
    decreases a.len(),
{
    if a.len() > 0 && b.len() > 0 {
        if a[0] == b[0] {
            lemma_path_le_total(a.drop_first(), b.drop_first());
        } else {
            lemma_key_injective(a[0], b[0]);
        }
    }
}

/// The order is transitive.
pub proof fn lemma_path_le_transitive(a: Seq<char>, b: Seq<char>, c: Seq<char>)
    requires
        path_le(a, b),
        path_le(b, c),
    ensures
        path_le(a, c),
    decreases a.len(),
{
    if a.len() > 0 && b.len() > 0 && c.len() > 0 {
        if a[0] == b[0] && b[0] == c[0] {
            lemma_path_le_transitive(a.drop_first(), b.drop_first(), c.drop_first());
        }
    }
}

/// The order is antisymmetric.
pub proof fn lemma_path_le_antisymmetric(a: Seq<char>, b: Seq<char>)
    requires
        path_le(a, b),
        path_le(b, a),
    ensures
        a == b,
    decreases a.len(),
{
    if a.len() > 0 && b.len() > 0 {
        if a[0] == b[0] {
            lemma_path_le_antisymmetric(a.drop_first(), b.drop_first());
            assert(a == seq![a[0]] + a.drop_first());
            assert(b == seq![b[0]] + b.drop_first());
        } else {
            lemma_key_injective(a[0], b[0]);
        }
    } else if a.len() == 0 && b.len() == 0 {
        assert(a == b);
    }
}

/// Whether `a` comes before `b` or equals it, in path order.
pub fn path_le_exec(a: &Vec<char>, b: &Vec<char>) -> (r: bool)
    ensures
        r == path_le(a@, b@),
{
    let mut i: usize = 0;
    assert(a@.skip(0) == a@ && b@.skip(0) == b@);
    while i < a.len() && i < b.len() && a[i] == b[i]
        invariant
            i <= a@.len(),
            i <= b@.len(),
            path_le(a@, b@) == path_le(a@.skip(i as int), b@.skip(i as int)),
        decreases a@.len() - i,
    {
        assert(a@.skip(i as int).drop_first() == a@.skip(i + 1));
        assert(b@.skip(i as int).drop_first() == b@.skip(i + 1));
        i = i + 1;
    }
    proof {
        if i < a@.len() && i < b@.len() {
            assert(a@.skip(i as int)[0] == a@[i as int]);
            assert(b@.skip(i as int)[0] == b@[i as int]);
        }
    }
    if i == a.len() {
        true
    } else if i == b.len() {
        false
    } else if a[i] == '/' {
        true
    } else if b[i] == '/' {
        false
    } else {
        (a[i] as u32) < (b[i] as u32)
    }
}

/// The views of a sequence of character vectors.
pub open spec fn char_views(v: Seq<Vec<char>>) -> Seq<Seq<char>> {
    v.map_values(|x: Vec<char>| x@)
}

/// Inserts `p` into the ascending list `sorted`, after every path not above it.
pub fn insert_sorted(sorted: &mut Vec<Vec<char>>, p: Vec<char>)
    requires
        paths_sorted(char_views(old(sorted)@)),
    ensures
        paths_sorted(char_views(final(sorted)@)),
        char_views(final(sorted)@).to_multiset() == char_views(old(sorted)@).to_multiset().insert(p@),
{
    let ghost s = char_views(sorted@);
    let mut k: usize = 0;
    while k < sorted.len() && path_le_exec(&sorted[k], &p)
        invariant
            k <= sorted@.len(),
            s == char_views(sorted@),
            forall|j: int| 0 <= j < k ==> path_le(#[trigger] s[j], p@),
        decreases sorted@.len() - k,
    {
        k = k + 1;
    }
    proof {
        if k < s.len() {
            lemma_path_le_total(s[k as int], p@);
        }
    }
    let ghost pv = p@;
    sorted.insert(k, p);
    let ghost t = char_views(sorted@);
    assert(t == s.insert(k as int, pv));
    assert forall|i: int, j: int| 0 <= i < j < t.len() implies path_le(t[i], t[j]) by {
        if j < k {
        } else if j == k {
        } else if i < k {
            // t[i] == s[i] <= p <= s[k] <= s[j - 1] == t[j]
            lemma_path_le_transitive(s[i], pv, s[k as int]);
            if j - 1 > k {
                lemma_path_le_transitive(s[i], s[k as int], s[j - 1]);
            }
        } else if i == k {
            if j - 1 > k {
                lemma_path_le_transitive(pv, s[k as int], s[j - 1]);
            }
        } else {
        }
    }
    proof {
        vstd::seq_lib::to_multiset_insert(s, k as int, pv);
    }
}

} // verus!

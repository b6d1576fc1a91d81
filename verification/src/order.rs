//! Lexicographic order on character sequences and what a stable sort is.
use vstd::prelude::*;

verus! {

/// Lexicographic order by code point, the order of `str`'s `Ord` (UTF-8
/// byte order and code-point order agree).
pub open spec fn lex_le(a: Seq<char>, b: Seq<char>) -> bool
    decreases a.len(),
{
    if a.len() == 0 {
        true
    } else if b.len() == 0 {
        false
    } else if a[0] < b[0] {
        true
    } else if a[0] > b[0] {
        false
    } else {
        lex_le(a.drop_first(), b.drop_first())
    }
}

/// Strict lexicographic order.
pub open spec fn lex_lt(a: Seq<char>, b: Seq<char>) -> bool {
    lex_le(a, b) && a != b
}

pub proof fn lemma_lex_total(a: Seq<char>, b: Seq<char>)
    ensures
        lex_le(a, b) || lex_le(b, a),
    decreases a.len(),
{
    if a.len() > 0 && b.len() > 0 && a[0] == b[0] {
        lemma_lex_total(a.drop_first(), b.drop_first());
    }
}

pub proof fn lemma_lex_trans(a: Seq<char>, b: Seq<char>, c: Seq<char>)
    requires
        lex_le(a, b),
        lex_le(b, c),
    ensures
        lex_le(a, c),
    decreases a.len(),
{
    if a.len() > 0 && b.len() > 0 && c.len() > 0 && a[0] == b[0] && b[0] == c[0] {
        lemma_lex_trans(a.drop_first(), b.drop_first(), c.drop_first());
    }
}

pub proof fn lemma_lex_antisym(a: Seq<char>, b: Seq<char>)
    requires
        lex_le(a, b),
        lex_le(b, a),
    ensures
        a == b,
    decreases a.len(),
{
    if a.len() > 0 && b.len() > 0 {
        assert(a[0] == b[0]);
        lemma_lex_antisym(a.drop_first(), b.drop_first());
        assert(a =~= seq![a[0]] + a.drop_first());
        assert(b =~= seq![b[0]] + b.drop_first());
    } else {
        assert(a =~= b);
    }
}

/// `lex_le` on characters.
pub fn lex_le_exec(a: &[char], b: &[char]) -> (r: bool)
    ensures
        r == lex_le(a@, b@),
{
    let mut i: usize = 0;
    assert(a@.skip(0) =~= a@);
    assert(b@.skip(0) =~= b@);
    while i < a.len() && i < b.len() && a[i] == b[i]
        invariant
            i <= a@.len(),
            i <= b@.len(),
            lex_le(a@, b@) == lex_le(a@.skip(i as int), b@.skip(i as int)),
        decreases a@.len() - i,
    {
        assert(a@.skip(i as int).drop_first() =~= a@.skip(i + 1));
        assert(b@.skip(i as int).drop_first() =~= b@.skip(i + 1));
        i += 1;
    }
    if i == a.len() {
        true
    } else if i == b.len() {
        false
    } else {
        a[i] < b[i]
    }
}

/// `perm` is a permutation of `0..n`.
pub open spec fn is_permutation(perm: Seq<int>, n: int) -> bool {
    &&& perm.len() == n
    &&& forall|i: int| 0 <= i < n ==> 0 <= #[trigger] perm[i] < n
    &&& forall|i: int, j: int| 0 <= i < j < n ==> perm[i] != perm[j]
}

/// `r` is `xs` sorted stably by the total preorder `le`: a rearrangement of
/// `xs` in which every element is `le` every later one, and elements that
/// are `le` each other keep their order from `xs`.
pub open spec fn is_stable_sort_of<T>(r: Seq<T>, xs: Seq<T>, le: spec_fn(T, T) -> bool) -> bool {
    exists|perm: Seq<int>|
        {
            &&& is_permutation(perm, xs.len() as int)
            &&& r.len() == xs.len()
            &&& forall|i: int| 0 <= i < r.len() ==> r[i] == xs[#[trigger] perm[i]]
            &&& forall|i: int, j: int| 0 <= i < j < r.len() ==> le(r[i], r[j])
            &&& forall|i: int, j: int|
                0 <= i < j < r.len() && le(r[j], r[i]) ==> perm[i] < perm[j]
        }
}

/// In a stable sort every element is `le` every later one.
pub proof fn lemma_stable_sort_sorted<T>(r: Seq<T>, xs: Seq<T>, le: spec_fn(T, T) -> bool, i: int, j: int)
    requires
        is_stable_sort_of(r, xs, le),
        0 <= i < j < r.len(),
    ensures
        le(r[i], r[j]),
{
}

} // verus!

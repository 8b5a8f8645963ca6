//! Comparing text the way `str`'s own `Ord` does, with what that order is.
//!
//! Two strings are compared character by character and, when one runs out
//! first, the shorter is the smaller. UTF-8 keeps code point order in its
//! bytes, so this is the order `str` compares by.

use vstd::prelude::*;

verus! {

/// `-1`, `0` or `1` as `d` is below, at or above zero.
pub open spec fn sign(d: int) -> int {
    if d < 0 {
        -1
    } else if d > 0 {
        1
    } else {
        0
    }
}

/// The first comparison, unless it found no difference.
pub open spec fn tie_break(first: int, second: int) -> int {
    if first != 0 {
        first
    } else {
        second
    }
}

/// Lexicographic comparison of two sequences, by `rel` on their items; a
/// prefix is below the longer sequence.
pub open spec fn lex<A>(xs: Seq<A>, ys: Seq<A>, rel: spec_fn(A, A) -> int) -> int
    decreases xs.len(),
{
    if xs.len() == 0 {
        if ys.len() == 0 {
            0
        } else {
            -1
        }
    } else if ys.len() == 0 {
        1
    } else {
        tie_break(rel(xs[0], ys[0]), lex(xs.drop_first(), ys.drop_first(), rel))
    }
}

/// `rel` is a three-way comparison of a total order: it answers `-1`, `0` or
/// `1`, swapping its arguments flips its answer, only equal values compare
/// equal, and it is transitive.
pub open spec fn is_order<A>(rel: spec_fn(A, A) -> int) -> bool {
    &&& forall|x: A, y: A| #[trigger] rel(x, y) == -rel(y, x)
    &&& forall|x: A, y: A| #[trigger] rel(x, y) == 0 ==> x == y
    &&& forall|x: A, y: A, z: A|
        #[trigger] rel(x, y) <= 0 && #[trigger] rel(y, z) <= 0 ==> rel(x, z) <= 0
    &&& forall|x: A, y: A| -1 <= #[trigger] rel(x, y) <= 1
}

pub open spec fn char_compare(a: char, b: char) -> int {
    sign(a as int - b as int)
}

pub open spec fn char_order() -> spec_fn(char, char) -> int {
    |a: char, b: char| char_compare(a, b)
}

/// How `str` orders two strings.
pub open spec fn text_compare(a: Seq<char>, b: Seq<char>) -> int {
    lex(a, b, char_order())
}

pub proof fn lemma_char_order()
    ensures
        is_order(char_order()),
{
    assert forall|x: char, y: char| #[trigger] char_order()(x, y) == 0 implies x == y by {
        assert(x as int == y as int);
    }
}

proof fn lemma_lex_flip<A>(xs: Seq<A>, ys: Seq<A>, rel: spec_fn(A, A) -> int)
    requires
        is_order(rel),
    ensures
        lex(xs, ys, rel) == -lex(ys, xs, rel),
        -1 <= lex(xs, ys, rel) <= 1,
    decreases xs.len(),
{
    if xs.len() > 0 && ys.len() > 0 {
        lemma_lex_flip(xs.drop_first(), ys.drop_first(), rel);
        assert(rel(xs[0], ys[0]) == -rel(ys[0], xs[0]));
    }
}

proof fn lemma_lex_same<A>(xs: Seq<A>, ys: Seq<A>, rel: spec_fn(A, A) -> int)
    requires
        is_order(rel),
        lex(xs, ys, rel) == 0,
    ensures
        xs == ys,
    decreases xs.len(),
{
    if xs.len() > 0 && ys.len() > 0 {
        assert(rel(xs[0], ys[0]) == 0);
        lemma_lex_same(xs.drop_first(), ys.drop_first(), rel);
        assert(xs =~= seq![xs[0]] + xs.drop_first());
        assert(ys =~= seq![ys[0]] + ys.drop_first());
    }
}

proof fn lemma_lex_trans<A>(xs: Seq<A>, ys: Seq<A>, zs: Seq<A>, rel: spec_fn(A, A) -> int)
    requires
        is_order(rel),
        lex(xs, ys, rel) <= 0,
        lex(ys, zs, rel) <= 0,
    ensures
        lex(xs, zs, rel) <= 0,
    decreases xs.len(),
{
    if xs.len() > 0 && ys.len() > 0 && zs.len() > 0 {
        let (a, b) = (rel(xs[0], ys[0]), rel(ys[0], zs[0]));
        assert(a <= 0 && b <= 0);
        assert(rel(xs[0], zs[0]) <= 0);
        if rel(xs[0], zs[0]) == 0 {
            assert(xs[0] == zs[0]);
            assert(rel(ys[0], xs[0]) == -a);
            lemma_lex_trans(xs.drop_first(), ys.drop_first(), zs.drop_first(), rel);
        }
    }
}

/// Comparing sequences item by item is a total order when comparing items is.
pub proof fn lemma_lex_order<A>(rel: spec_fn(A, A) -> int)
    requires
        is_order(rel),
    ensures
        is_order(|xs: Seq<A>, ys: Seq<A>| lex(xs, ys, rel)),
{
    let order = |xs: Seq<A>, ys: Seq<A>| lex(xs, ys, rel);
    assert forall|x: Seq<A>, y: Seq<A>| #[trigger] order(x, y) == -order(y, x) by {
        lemma_lex_flip(x, y, rel);
    }
    assert forall|x: Seq<A>, y: Seq<A>| #[trigger] order(x, y) == 0 implies x == y by {
        lemma_lex_same(x, y, rel);
    }
    assert forall|x: Seq<A>, y: Seq<A>, z: Seq<A>|
        #[trigger] order(x, y) <= 0 && #[trigger] order(y, z) <= 0 implies order(x, z) <= 0 by {
        lemma_lex_trans(x, y, z, rel);
    }
    assert forall|x: Seq<A>, y: Seq<A>| -1 <= #[trigger] order(x, y) <= 1 by {
        lemma_lex_flip(x, y, rel);
    }
}

/// `str`'s order is a total order.
pub proof fn lemma_text_order()
    ensures
        is_order(|a: Seq<char>, b: Seq<char>| text_compare(a, b)),
{
    lemma_char_order();
    lemma_lex_order(char_order());
    let order = |a: Seq<char>, b: Seq<char>| text_compare(a, b);
    let lexed = |xs: Seq<char>, ys: Seq<char>| lex(xs, ys, char_order());
    assert forall|x: Seq<char>, y: Seq<char>| #[trigger] order(x, y) == lexed(x, y) by {}
}

proof fn lemma_lex_step<A>(xs: Seq<A>, ys: Seq<A>, k: int, rel: spec_fn(A, A) -> int)
    requires
        0 <= k < xs.len(),
        k < ys.len(),
        rel(xs[k], ys[k]) == 0,
    ensures
        lex(xs.skip(k), ys.skip(k), rel) == lex(xs.skip(k + 1), ys.skip(k + 1), rel),
{
    assert(xs.skip(k).drop_first() =~= xs.skip(k + 1));
    assert(ys.skip(k).drop_first() =~= ys.skip(k + 1));
}

/// Compares two strings as `str` orders them: `-1`, `0` or `1`.
pub fn compare_text(a: &str, b: &str) -> (r: i8)
    ensures
        r == text_compare(a@, b@),
{
    let la = a.unicode_len();
    let lb = b.unicode_len();
    let mut k: usize = 0;
    proof {
        assert(a@.skip(0) =~= a@);
        assert(b@.skip(0) =~= b@);
    }
    while k < la && k < lb
        invariant
            la == a@.len(),
            lb == b@.len(),
            k <= la,
            k <= lb,
            text_compare(a@, b@) == lex(a@.skip(k as int), b@.skip(k as int), char_order()),
        decreases la - k,
    {
        let ca = a.get_char(k);
        let cb = b.get_char(k);
        if (ca as u32) < (cb as u32) {
            return -1;
        }
        if (ca as u32) > (cb as u32) {
            return 1;
        }
        proof {
            assert(ca as int == cb as int);
            lemma_lex_step(a@, b@, k as int, char_order());
        }
        k = k + 1;
    }
    if la == lb {
        0
    } else if k == la {
        -1
    } else {
        1
    }
}

/// Whether two strings hold the same characters.
pub fn same_text(a: &str, b: &str) -> (r: bool)
    ensures
        r == (a@ == b@),
{
    let r = compare_text(a, b);
    proof {
        lemma_char_order();
        if r == 0 {
            lemma_lex_same(a@, b@, char_order());
        }
        if a@ == b@ {
            lemma_lex_flip(a@, b@, char_order());
        }
    }
    r == 0
}

} // verus!

//! Edit distance (Levenshtein distance) between character sequences, and
//! the facts about it that the banded fuzzy search relies on.
use vstd::prelude::*;

verus! {

pub open spec fn min3(a: int, b: int, c: int) -> int {
    if a <= b && a <= c {
        a
    } else if b <= c {
        b
    } else {
        c
    }
}

/// The minimum number of single-character insertions, deletions, and
/// substitutions that turn `a` into `b`.
pub open spec fn levenshtein(a: Seq<char>, b: Seq<char>) -> nat
    decreases a.len() + b.len(),
{
    if a.len() == 0 {
        b.len()
    } else if b.len() == 0 {
        a.len()
    } else {
        min3(
            levenshtein(a.drop_last(), b.drop_last()) + if a.last() == b.last() {
                0int
            } else {
                1int
            },
            levenshtein(a.drop_last(), b) + 1int,
            levenshtein(a, b.drop_last()) + 1int,
        ) as nat
    }
}

/// The distance is at least the difference of the lengths.
pub proof fn lemma_length_difference(a: Seq<char>, b: Seq<char>)
    ensures
        levenshtein(a, b) >= a.len() - b.len(),
        levenshtein(a, b) >= b.len() - a.len(),
    decreases a.len() + b.len(),
{
    if a.len() > 0 && b.len() > 0 {
        lemma_length_difference(a.drop_last(), b.drop_last());
        lemma_length_difference(a.drop_last(), b);
        lemma_length_difference(a, b.drop_last());
    }
}

/// One cell of the dynamic-programming matrix: appending `ch` to `a` and
/// one more character of `b`.
pub proof fn lemma_step(a: Seq<char>, ch: char, b: Seq<char>, j: int)
    requires
        0 <= j < b.len(),
    ensures
        levenshtein(a.push(ch), b.take(j + 1)) == min3(
            levenshtein(a, b.take(j)) + if ch == b[j] {
                0int
            } else {
                1int
            },
            levenshtein(a, b.take(j + 1)) + 1int,
            levenshtein(a.push(ch), b.take(j)) + 1int,
        ),
{
    assert(a.push(ch).drop_last() =~= a);
    assert(b.take(j + 1).drop_last() =~= b.take(j));
    assert(b.take(j + 1).last() == b[j]);
}

/// The distance is zero exactly between equal sequences.
pub proof fn lemma_zero_distance(a: Seq<char>, b: Seq<char>)
    ensures
        levenshtein(a, b) == 0 <==> a == b,
    decreases a.len() + b.len(),
{
    if a.len() > 0 && b.len() > 0 {
        lemma_zero_distance(a.drop_last(), b.drop_last());
        if a == b {
            assert(a.drop_last() == b.drop_last());
        }
        if levenshtein(a, b) == 0 {
            lemma_length_difference(a.drop_last(), b);
            lemma_length_difference(a, b.drop_last());
            assert(a.drop_last() == b.drop_last());
            assert(a =~= b.drop_last().push(b.last()));
            assert(b =~= b.drop_last().push(b.last()));
        }
    } else if a.len() == 0 && b.len() == 0 {
        assert(a =~= b);
    }
}

/// The distance from the empty sequence is the length.
pub proof fn lemma_empty(a: Seq<char>)
    ensures
        levenshtein(a, Seq::<char>::empty()) == a.len(),
        levenshtein(Seq::<char>::empty(), a) == a.len(),
{
}

/// If every prefix of `b` is farther than `bound` from `a`, the same holds
/// for every extension of `a`.
pub proof fn lemma_row_bound(a: Seq<char>, b: Seq<char>, x: Seq<char>, bound: int)
    requires
        forall|j: int| 0 <= j <= b.len() ==> levenshtein(a, #[trigger] b.take(j)) > bound,
    ensures
        forall|j: int| 0 <= j <= b.len() ==> levenshtein(a + x, #[trigger] b.take(j)) > bound,
    decreases x.len(),
{
    if x.len() > 0 {
        let y = x.drop_last();
        let ch = x.last();
        lemma_row_bound(a, b, y, bound);
        assert(a + x =~= (a + y).push(ch));
        lemma_row_bound_step(a + y, ch, b, bound, b.len() as int);
    } else {
        assert(a + x =~= a);
    }
}

proof fn lemma_row_bound_step(a: Seq<char>, ch: char, b: Seq<char>, bound: int, upto: int)
    requires
        0 <= upto <= b.len(),
        forall|j: int| 0 <= j <= b.len() ==> levenshtein(a, #[trigger] b.take(j)) > bound,
    ensures
        forall|j: int| 0 <= j <= upto ==> levenshtein(a.push(ch), #[trigger] b.take(j)) > bound,
    decreases upto,
{
    if upto == 0 {
        assert(b.take(0) =~= Seq::<char>::empty());
        assert(levenshtein(a, b.take(0)) > bound);
        lemma_empty(a);
        lemma_empty(a.push(ch));
    } else {
        lemma_row_bound_step(a, ch, b, bound, upto - 1);
        lemma_step(a, ch, b, upto - 1);
        assert(levenshtein(a, b.take(upto - 1)) > bound);
        assert(levenshtein(a, b.take(upto)) > bound);
        assert(levenshtein(a.push(ch), b.take(upto - 1)) > bound);
    }
}

} // verus!

//! Sums of a function over a list of cells, and how such sums are
//! rearranged.

use vstd::prelude::*;
use crate::geometry::Cell;

verus! {

/// The sum of `f` over the listed cells.
pub open spec fn sum_over(listed: Seq<Cell>, f: spec_fn(Cell) -> int) -> int
    decreases listed.len(),
{
    if listed.len() == 0 {
        0
    } else {
        sum_over(listed.drop_last(), f) + f(listed.last())
    }
}

/// Functions that agree on the listed cells have the same sum.
pub proof fn lemma_sum_pointwise(s: Seq<Cell>, f: spec_fn(Cell) -> int, g: spec_fn(Cell) -> int)
    requires
        forall|i: int| 0 <= i < s.len() ==> f(#[trigger] s[i]) == g(s[i]),
    ensures
        sum_over(s, f) == sum_over(s, g),
    decreases s.len(),
{
    if s.len() > 0 {
        assert forall|i: int| 0 <= i < s.drop_last().len() implies f(#[trigger] s.drop_last()[i])
            == g(s.drop_last()[i]) by {
            assert(s.drop_last()[i] == s[i]);
        }
        lemma_sum_pointwise(s.drop_last(), f, g);
        assert(s.last() == s[s.len() - 1]);
    }
}

/// The sum of a pointwise sum is the sum of the sums.
pub proof fn lemma_sum_add(
    s: Seq<Cell>,
    f: spec_fn(Cell) -> int,
    g: spec_fn(Cell) -> int,
    h: spec_fn(Cell) -> int,
)
    requires
        forall|i: int| 0 <= i < s.len() ==> h(#[trigger] s[i]) == f(s[i]) + g(s[i]),
    ensures
        sum_over(s, h) == sum_over(s, f) + sum_over(s, g),
    decreases s.len(),
{
    if s.len() > 0 {
        assert forall|i: int| 0 <= i < s.drop_last().len() implies h(#[trigger] s.drop_last()[i])
            == f(s.drop_last()[i]) + g(s.drop_last()[i]) by {
            assert(s.drop_last()[i] == s[i]);
        }
        lemma_sum_add(s.drop_last(), f, g, h);
        assert(s.last() == s[s.len() - 1]);
    }
}

/// A function that is `v` on the cell `n` and zero elsewhere sums to `v`
/// over a list that holds `n` once, and to zero over one that does not.
pub proof fn lemma_sum_single(s: Seq<Cell>, n: Cell, v: int, f: spec_fn(Cell) -> int)
    requires
        s.no_duplicates(),
        forall|i: int|
            0 <= i < s.len() ==> f(#[trigger] s[i]) == if s[i] == n {
                v
            } else {
                0
            },
    ensures
        sum_over(s, f) == if s.contains(n) {
            v
        } else {
            0
        },
    decreases s.len(),
{
    if s.len() > 0 {
        let before = s.drop_last();
        assert forall|i: int| 0 <= i < before.len() implies f(#[trigger] before[i]) == if before[i]
            == n {
            v
        } else {
            0
        } by {
            assert(before[i] == s[i]);
        }
        lemma_sum_single(before, n, v, f);
        assert(s.last() == s[s.len() - 1]);
        if before.contains(n) {
            let i = choose|i: int| 0 <= i < before.len() && before[i] == n;
            assert(s[i] == n);
        }
        if s.contains(n) && s.last() != n {
            let i = choose|i: int| 0 <= i < s.len() && s[i] == n;
            assert(before[i] == n);
        }
    }
}

/// Summing `f` over the cells of `a` that `b` holds gives what summing it
/// over the cells of `b` that `a` holds gives.
pub proof fn lemma_sum_swap(
    a: Seq<Cell>,
    b: Seq<Cell>,
    f: spec_fn(Cell) -> int,
    fa: spec_fn(Cell) -> int,
    fb: spec_fn(Cell) -> int,
)
    requires
        a.no_duplicates(),
        b.no_duplicates(),
        forall|i: int|
            0 <= i < a.len() ==> fa(#[trigger] a[i]) == if b.contains(a[i]) {
                f(a[i])
            } else {
                0
            },
        forall|i: int|
            0 <= i < b.len() ==> fb(#[trigger] b[i]) == if a.contains(b[i]) {
                f(b[i])
            } else {
                0
            },
    ensures
        sum_over(a, fa) == sum_over(b, fb),
    decreases a.len(),
{
    if a.len() == 0 {
        lemma_sum_single(b, (0, 0, 0), 0, fb);
    } else {
        let before = a.drop_last();
        let n = a.last();
        assert(n == a[a.len() - 1]);
        let fb_before = |c: Cell|
            if before.contains(c) {
                f(c)
            } else {
                0
            };
        let only_n = |c: Cell|
            if c == n {
                f(n)
            } else {
                0
            };
        assert forall|i: int| 0 <= i < before.len() implies fa(#[trigger] before[i]) == if b.contains(
            before[i],
        ) {
            f(before[i])
        } else {
            0
        } by {
            assert(before[i] == a[i]);
        }
        lemma_sum_swap(before, b, f, fa, fb_before);
        lemma_sum_single(b, n, f(n), only_n);
        assert forall|i: int| 0 <= i < b.len() implies fb(#[trigger] b[i]) == fb_before(b[i])
            + only_n(b[i]) by {
            let c = b[i];
            if before.contains(c) {
                let j = choose|j: int| 0 <= j < before.len() && before[j] == c;
                assert(a[j] == c);
                assert(c != n);
            }
            if a.contains(c) && c != n {
                let j = choose|j: int| 0 <= j < a.len() && a[j] == c;
                assert(before[j] == c);
            }
        }
        lemma_sum_add(b, fb_before, only_n, fb);
    }
}

} // verus!

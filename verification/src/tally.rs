//! Exact sums over the first so many numbers.

use vstd::prelude::*;

verus! {

/// The sum of `f` over `0..n`.
pub open spec fn tally(n: int, f: spec_fn(int) -> real) -> real
    decreases n,
{
    if n <= 0 {
        0 as real
    } else {
        tally(n - 1, f) + f(n - 1)
    }
}

/// Equal terms have equal sums.
pub proof fn lemma_tally_same(n: int, f: spec_fn(int) -> real, g: spec_fn(int) -> real)
    requires
        forall|i: int| #![trigger f(i)] 0 <= i < n ==> f(i) == g(i),
    ensures
        tally(n, f) == tally(n, g),
    decreases n,
{
    if n > 0 {
        lemma_tally_same(n - 1, f, g);
        assert(f(n - 1) == g(n - 1));
    }
}

/// Terms that vanish come to nothing.
pub proof fn lemma_tally_zero(n: int, f: spec_fn(int) -> real)
    requires
        forall|i: int| #![trigger f(i)] 0 <= i < n ==> f(i) == 0 as real,
    ensures
        tally(n, f) == 0 as real,
    decreases n,
{
    if n > 0 {
        lemma_tally_zero(n - 1, f);
        assert(f(n - 1) == 0 as real);
    }
}

/// The sum of sums, term by term.
pub proof fn lemma_tally_plus(n: int, f: spec_fn(int) -> real, g: spec_fn(int) -> real, h: spec_fn(int) -> real)
    requires
        forall|i: int| #![trigger h(i)] 0 <= i < n ==> h(i) == f(i) + g(i),
    ensures
        tally(n, h) == tally(n, f) + tally(n, g),
    decreases n,
{
    if n > 0 {
        lemma_tally_plus(n - 1, f, g, h);
        assert(h(n - 1) == f(n - 1) + g(n - 1));
    }
}

/// A factor common to all terms.
pub proof fn lemma_tally_times(n: int, a: real, f: spec_fn(int) -> real, h: spec_fn(int) -> real)
    requires
        forall|i: int| #![trigger h(i)] 0 <= i < n ==> h(i) == a * f(i),
    ensures
        tally(n, h) == a * tally(n, f),
    decreases n,
{
    if n > 0 {
        lemma_tally_times(n - 1, a, f, h);
        assert(h(n - 1) == a * f(n - 1));
        let (s, t) = (tally(n - 1, f), f(n - 1));
        assert(a * s + a * t == a * (s + t)) by (nonlinear_arith);
    } else {
        assert(a * (0 as real) == 0 as real) by (nonlinear_arith);
    }
}

/// A term more at one place.
pub proof fn lemma_tally_bump(n: int, k: int, d: real, f: spec_fn(int) -> real, g: spec_fn(int) -> real)
    requires
        0 <= k < n,
        forall|i: int| #![trigger f(i)] 0 <= i < n && i != k ==> f(i) == g(i),
        f(k) == g(k) + d,
    ensures
        tally(n, f) == tally(n, g) + d,
    decreases n,
{
    if k == n - 1 {
        lemma_tally_same(n - 1, f, g);
    } else {
        lemma_tally_bump(n - 1, k, d, f, g);
        assert(f(n - 1) == g(n - 1));
    }
}

/// Rows first or columns first is the same.
pub proof fn lemma_tally_swap(n: int, m: int, f: spec_fn(int, int) -> real)
    ensures
        tally(n, |i: int| tally(m, |j: int| f(i, j))) == tally(m, |j: int| tally(n, |i: int| f(i, j))),
    decreases n,
{
    let rows = |i: int| tally(m, |j: int| f(i, j));
    let columns = |j: int| tally(n, |i: int| f(i, j));
    if n <= 0 {
        lemma_tally_zero(m, columns);
    } else {
        lemma_tally_swap(n - 1, m, f);
        let fewer = |j: int| tally(n - 1, |i: int| f(i, j));
        let last = |j: int| f(n - 1, j);
        assert forall|j: int| 0 <= j < m implies #[trigger] columns(j) == fewer(j) + last(j) by {
            let column = |i: int| f(i, j);
            assert(columns(j) == tally(n, column));
            assert(fewer(j) == tally(n - 1, column));
        }
        lemma_tally_plus(m, fewer, last, columns);
        assert(rows(n - 1) == tally(m, last)) by {
            lemma_tally_same(m, |j: int| f(n - 1, j), last);
        }
    }
}

/// The first term apart.
pub proof fn lemma_tally_front(n: int, f: spec_fn(int) -> real, rest: spec_fn(int) -> real)
    requires
        n > 0,
        forall|i: int| #![trigger rest(i)] 0 <= i < n - 1 ==> rest(i) == f(i + 1),
    ensures
        tally(n, f) == f(0) + tally(n - 1, rest),
    decreases n,
{
    if n > 1 {
        lemma_tally_front(n - 1, f, rest);
        assert(rest(n - 2) == f(n - 1));
    } else {
        assert(tally(0, f) == 0 as real);
    }
}

/// One of the `n` numbers `l` that are `good` has `e(l)` equal to `k`.
pub open spec fn hits(n: int, good: spec_fn(int) -> bool, e: spec_fn(int) -> int, k: int) -> bool {
    exists|l: int| 0 <= l < n && good(l) && #[trigger] e(l) == k
}

/// A sum over places that `n` numbers point to, no two to one place.
pub proof fn lemma_tally_places(
    n: int,
    places: int,
    good: spec_fn(int) -> bool,
    e: spec_fn(int) -> int,
    g: spec_fn(int) -> real,
    by_number: spec_fn(int) -> real,
    by_place: spec_fn(int) -> real,
)
    requires
        forall|l: int| 0 <= l < n && good(l) ==> 0 <= #[trigger] e(l) < places,
        forall|l: int, m: int| 0 <= l < m < n && good(l) && good(m) ==> #[trigger] e(l) != #[trigger] e(m),
        forall|l: int|
            #![trigger by_number(l)]
            0 <= l < n ==> by_number(l) == (if good(l) {
                g(e(l))
            } else {
                0 as real
            }),
        forall|k: int|
            #![trigger by_place(k)]
            0 <= k < places ==> by_place(k) == (if hits(n, good, e, k) {
                g(k)
            } else {
                0 as real
            }),
    ensures
        tally(n, by_number) == tally(places, by_place),
    decreases n,
{
    if n <= 0 {
        lemma_tally_zero(places, by_place);
    } else {
        let fewer = |k: int| if hits(n - 1, good, e, k) {
            g(k)
        } else {
            0 as real
        };
        lemma_tally_places(n - 1, places, good, e, g, by_number, fewer);
        assert(by_number(n - 1) == (if good(n - 1) {
            g(e(n - 1))
        } else {
            0 as real
        }));
        assert forall|k: int| hits(n - 1, good, e, k) implies hits(n, good, e, k) by {}
        assert forall|k: int| hits(n, good, e, k) && !(good(n - 1) && k == e(n - 1)) implies hits(n - 1, good, e, k) by {
            let l = choose|l: int| 0 <= l < n && good(l) && #[trigger] e(l) == k;
            assert(l < n - 1);
        }
        if good(n - 1) {
            let k = e(n - 1);
            assert(hits(n, good, e, k));
            assert(!hits(n - 1, good, e, k));
            assert forall|i: int| #![trigger by_place(i)] 0 <= i < places && i != k implies by_place(i) == fewer(i) by {}
            assert(by_place(k) == fewer(k) + g(k));
            lemma_tally_bump(places, k, g(k), by_place, fewer);
        } else {
            assert forall|i: int| #![trigger by_place(i)] 0 <= i < places implies by_place(i) == fewer(i) by {}
            lemma_tally_same(places, by_place, fewer);
        }
    }
}

} // verus!

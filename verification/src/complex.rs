//! Complex numbers, their sums, and what Fourier sums along a line come to.

use crate::tally::{lemma_tally_same, lemma_tally_swap, tally};
use vstd::prelude::*;

verus! {

/// A complex number.
#[verifier::ext_equal]
pub struct Cx {
    pub re: real,
    pub im: real,
}

pub open spec fn plain_cx(v: real) -> Cx {
    Cx { re: v, im: 0 as real }
}

pub open spec fn cx_plus(a: Cx, b: Cx) -> Cx {
    Cx { re: a.re + b.re, im: a.im + b.im }
}

pub open spec fn cx_times(a: Cx, b: Cx) -> Cx {
    Cx { re: a.re * b.re - a.im * b.im, im: a.re * b.im + a.im * b.re }
}

/// The sum of `f` over `0..n`.
pub open spec fn cx_tally(n: int, f: spec_fn(int) -> Cx) -> Cx {
    Cx { re: tally(n, |i: int| f(i).re), im: tally(n, |i: int| f(i).im) }
}

/// One term more.
pub proof fn lemma_cx_tally_step(n: int, f: spec_fn(int) -> Cx)
    requires
        n > 0,
    ensures
        cx_tally(n, f) == cx_plus(cx_tally(n - 1, f), f(n - 1)),
{
}

pub proof fn lemma_cx_tally_same(n: int, f: spec_fn(int) -> Cx, g: spec_fn(int) -> Cx)
    requires
        forall|i: int| #![trigger f(i)] 0 <= i < n ==> f(i) == g(i),
    ensures
        cx_tally(n, f) == cx_tally(n, g),
{
    let (fr, gr) = (|i: int| f(i).re, |i: int| g(i).re);
    let (fi, gi) = (|i: int| f(i).im, |i: int| g(i).im);
    assert forall|i: int| #![trigger fr(i)] 0 <= i < n implies fr(i) == gr(i) by {
        assert(f(i) == g(i));
    }
    assert forall|i: int| #![trigger fi(i)] 0 <= i < n implies fi(i) == gi(i) by {
        assert(f(i) == g(i));
    }
    lemma_tally_same(n, fr, gr);
    lemma_tally_same(n, fi, gi);
}

pub proof fn lemma_cx_tally_swap(n: int, m: int, f: spec_fn(int, int) -> Cx)
    ensures
        cx_tally(n, |i: int| cx_tally(m, |j: int| f(i, j))) == cx_tally(m, |j: int| cx_tally(n, |i: int| f(i, j))),
{
    let (fr, fi) = (|i: int, j: int| f(i, j).re, |i: int, j: int| f(i, j).im);
    lemma_tally_swap(n, m, fr);
    lemma_tally_swap(n, m, fi);
    let rows = |i: int| cx_tally(m, |j: int| f(i, j));
    let columns = |j: int| cx_tally(n, |i: int| f(i, j));
    assert forall|i: int| #![trigger rows(i)] 0 <= i < n implies rows(i).re == tally(m, |j: int| fr(i, j)) && rows(i).im == tally(
        m,
        |j: int| fi(i, j),
    ) by {
        lemma_tally_same(m, |j: int| (|j: int| f(i, j))(j).re, |j: int| fr(i, j));
        lemma_tally_same(m, |j: int| (|j: int| f(i, j))(j).im, |j: int| fi(i, j));
    }
    assert forall|j: int| #![trigger columns(j)] 0 <= j < m implies columns(j).re == tally(n, |i: int| fr(i, j)) && columns(
        j,
    ).im == tally(n, |i: int| fi(i, j)) by {
        lemma_tally_same(n, |i: int| (|i: int| f(i, j))(i).re, |i: int| fr(i, j));
        lemma_tally_same(n, |i: int| (|i: int| f(i, j))(i).im, |i: int| fi(i, j));
    }
    lemma_tally_same(n, |i: int| rows(i).re, |i: int| tally(m, |j: int| fr(i, j)));
    lemma_tally_same(n, |i: int| rows(i).im, |i: int| tally(m, |j: int| fi(i, j)));
    lemma_tally_same(m, |j: int| columns(j).re, |j: int| tally(n, |i: int| fr(i, j)));
    lemma_tally_same(m, |j: int| columns(j).im, |j: int| tally(n, |i: int| fi(i, j)));
}

/// Products of sums, one at a time.
proof fn lemma_over_sum(x: real, y: real, z: real)
    ensures
        x * (y + z) == x * y + x * z,
        x * (y - z) == x * y - x * z,
        (y + z) * x == x * y + x * z,
        (y - z) * x == x * y - x * z,
{
    assert(x * (y + z) == x * y + x * z) by (nonlinear_arith);
    assert(x * (y - z) == x * y - x * z) by (nonlinear_arith);
    assert((y + z) * x == x * y + x * z) by (nonlinear_arith);
    assert((y - z) * x == x * y - x * z) by (nonlinear_arith);
}

proof fn lemma_in_any_order(x: real, y: real, z: real)
    ensures
        z * (x * y) == x * (y * z),
        x * y == y * x,
{
    assert(z * (x * y) == x * (y * z)) by (nonlinear_arith);
    assert(x * y == y * x) by (nonlinear_arith);
}

proof fn lemma_cx_sum(a: Cx, b: Cx, c: Cx)
    ensures
        cx_times(a, cx_plus(b, c)) == cx_plus(cx_times(a, b), cx_times(a, c)),
{
    lemma_over_sum(a.re, b.re, c.re);
    lemma_over_sum(a.im, b.im, c.im);
    lemma_over_sum(a.re, b.im, c.im);
    lemma_over_sum(a.im, b.re, c.re);
}

proof fn lemma_cx_swap(a: Cx, b: Cx)
    ensures
        cx_times(a, b) == cx_times(b, a),
{
    lemma_in_any_order(a.re, b.re, b.re);
    lemma_in_any_order(a.im, b.im, b.im);
    lemma_in_any_order(a.re, b.im, b.im);
    lemma_in_any_order(a.im, b.re, b.re);
}

proof fn lemma_cx_join(a: Cx, b: Cx, c: Cx)
    ensures
        cx_times(cx_times(a, b), c) == cx_times(a, cx_times(b, c)),
{
    let (ar, ai, br, bi, cr, ci) = (a.re, a.im, b.re, b.im, c.re, c.im);
    lemma_over_sum(cr, ar * br, ai * bi);
    lemma_over_sum(ci, ar * bi, ai * br);
    lemma_over_sum(ci, ar * br, ai * bi);
    lemma_over_sum(cr, ar * bi, ai * br);
    lemma_over_sum(ar, br * cr, bi * ci);
    lemma_over_sum(ai, br * ci, bi * cr);
    lemma_over_sum(ar, br * ci, bi * cr);
    lemma_over_sum(ai, br * cr, bi * ci);
    lemma_in_any_order(ar, br, cr);
    lemma_in_any_order(ai, bi, cr);
    lemma_in_any_order(ar, bi, ci);
    lemma_in_any_order(ai, br, ci);
    lemma_in_any_order(ar, br, ci);
    lemma_in_any_order(ai, bi, ci);
    lemma_in_any_order(ar, bi, cr);
    lemma_in_any_order(ai, br, cr);
}

proof fn lemma_cx_units(a: Cx)
    ensures
        cx_times(a, plain_cx(0 as real)) == plain_cx(0 as real),
        cx_times(a, plain_cx(1 as real)) == a,
{
    let (ar, ai) = (a.re, a.im);
    assert(ar * (0 as real) == 0 as real) by (nonlinear_arith);
    assert(ai * (0 as real) == 0 as real) by (nonlinear_arith);
    assert(ar * (1 as real) == ar) by (nonlinear_arith);
    assert(ai * (1 as real) == ai) by (nonlinear_arith);
}

/// A factor common to all terms.
pub proof fn lemma_cx_tally_times(n: int, a: Cx, f: spec_fn(int) -> Cx, h: spec_fn(int) -> Cx)
    requires
        forall|i: int| #![trigger h(i)] 0 <= i < n ==> h(i) == cx_times(a, f(i)),
    ensures
        cx_tally(n, h) == cx_times(a, cx_tally(n, f)),
    decreases n,
{
    if n > 0 {
        lemma_cx_tally_times(n - 1, a, f, h);
        lemma_cx_tally_step(n, f);
        lemma_cx_tally_step(n, h);
        assert(h(n - 1) == cx_times(a, f(n - 1)));
        lemma_cx_sum(a, cx_tally(n - 1, f), f(n - 1));
    } else {
        lemma_cx_units(a);
        assert(cx_tally(n, f) == plain_cx(0 as real));
        assert(cx_tally(n, h) == plain_cx(0 as real));
    }
}

/// All terms but one vanish.
pub proof fn lemma_cx_tally_one(n: int, k: int, f: spec_fn(int) -> Cx)
    requires
        0 <= k < n,
        forall|i: int| #![trigger f(i)] 0 <= i < n && i != k ==> f(i) == plain_cx(0 as real),
    ensures
        cx_tally(n, f) == f(k),
    decreases n,
{
    lemma_cx_tally_step(n, f);
    if k == n - 1 {
        let none = |i: int| plain_cx(0 as real);
        lemma_cx_tally_same(n - 1, f, none);
        lemma_cx_tally_none(n - 1, none);
    } else {
        lemma_cx_tally_one(n - 1, k, f);
        assert(f(n - 1) == plain_cx(0 as real));
    }
}

proof fn lemma_cx_tally_none(n: int, f: spec_fn(int) -> Cx)
    requires
        forall|i: int| #![trigger f(i)] f(i) == plain_cx(0 as real),
    ensures
        cx_tally(n, f) == plain_cx(0 as real),
    decreases n,
{
    if n > 0 {
        lemma_cx_tally_none(n - 1, f);
        lemma_cx_tally_step(n, f);
        assert(f(n - 1) == plain_cx(0 as real));
    }
}

/// Two turns in a row are the turn by both.
pub open spec fn joins(root: spec_fn(int) -> Cx, a: int, b: int) -> bool {
    root(a + b) == cx_times(root(a), root(b))
}

/// All powers of a turn by `d` of `n` parts add up to nothing, unless it is a
/// whole number of turns.
pub open spec fn adds_up(n: int, root: spec_fn(int) -> Cx, d: int) -> bool {
    cx_tally(n, |k: int| root(k * d)) == (if d % n == 0 {
        plain_cx(n as real)
    } else {
        plain_cx(0 as real)
    })
}

/// `root(k)` turns by `k` of `n` parts of a circle.
pub open spec fn turns(n: int, root: spec_fn(int) -> Cx) -> bool {
    &&& forall|a: int, b: int| #[trigger] joins(root, a, b)
    &&& forall|d: int| #[trigger] adds_up(n, root, d)
}

/// Coefficient `k` of the Fourier sums of `f` over `n` places.
pub open spec fn coefficient(n: int, root: spec_fn(int) -> Cx, f: spec_fn(int) -> Cx, k: int) -> Cx {
    cx_tally(n, |j: int| cx_times(f(j), root(-(j * k))))
}

/// Value `k` of the Fourier sums back, not scaled.
pub open spec fn sum_back(n: int, root: spec_fn(int) -> Cx, f: spec_fn(int) -> Cx, k: int) -> Cx {
    cx_tally(n, |j: int| cx_times(f(j), root(j * k)))
}

/// The sum of products of `a` and `b` around a ring of `n` places.
pub open spec fn around_ring(n: int, a: spec_fn(int) -> Cx, b: spec_fn(int) -> Cx, y: int) -> Cx {
    cx_tally(n, |i: int| cx_times(a(i), b((y - i) % n)))
}

/// Two places are a whole number of turns apart if the one is where the other
/// comes round to.
proof fn lemma_whole_turn(d: int, j: int, n: int)
    requires
        0 <= j < n,
    ensures
        (d - j) % n == 0 <==> j == d % n,
{
    vstd::arithmetic::div_mod::lemma_fundamental_div_mod(d, n);
    let (q, r) = (d / n, d % n);
    vstd::arithmetic::div_mod::lemma_mod_multiples_vanish(q, r - j, n);
    assert(n * q + (r - j) == d - j);
    if r >= j {
        vstd::arithmetic::div_mod::lemma_small_mod((r - j) as nat, n as nat);
    } else {
        vstd::arithmetic::div_mod::lemma_mod_multiples_vanish(1, r - j, n);
        assert(n * 1 + (r - j) == r - j + n);
        vstd::arithmetic::div_mod::lemma_small_mod((r - j + n) as nat, n as nat);
    }
}

/// A product of two coefficients, turned, as a sum of products of values.
proof fn lemma_product_spelled_out(n: int, root: spec_fn(int) -> Cx, a: spec_fn(int) -> Cx, b: spec_fn(int) -> Cx, y: int, k: int)
    requires
        n > 0,
        turns(n, root),
    ensures
        cx_times(cx_times(coefficient(n, root, a, k), coefficient(n, root, b, k)), root(k * y)) == cx_tally(
            n,
            |i: int| cx_tally(n, |j: int| cx_times(cx_times(a(i), b(j)), root(k * (y - i - j)))),
        ),
{
    let (ca, cb, turn) = (coefficient(n, root, a, k), coefficient(n, root, b, k), root(k * y));
    let rest = cx_times(cb, turn);
    let ta = |i: int| cx_times(a(i), root(-(i * k)));
    let tb = |j: int| cx_times(b(j), root(-(j * k)));
    lemma_cx_tally_same(n, |j: int| cx_times(a(j), root(-(j * k))), ta);
    lemma_cx_tally_same(n, |j: int| cx_times(b(j), root(-(j * k))), tb);
    let outer = |i: int| cx_times(rest, ta(i));
    lemma_cx_tally_times(n, rest, ta, outer);
    assert(cx_times(cx_times(ca, cb), turn) == cx_tally(n, outer)) by {
        lemma_cx_join(ca, cb, turn);
        lemma_cx_swap(ca, rest);
    }
    let want = |i: int| cx_tally(n, |j: int| cx_times(cx_times(a(i), b(j)), root(k * (y - i - j))));
    assert forall|i: int| #![trigger outer(i)] 0 <= i < n implies outer(i) == want(i) by {
        let f = cx_times(turn, ta(i));
        lemma_cx_join(cb, turn, ta(i));
        lemma_cx_swap(cb, f);
        let inner = |j: int| cx_times(f, tb(j));
        lemma_cx_tally_times(n, f, tb, inner);
        let wanted = |j: int| cx_times(cx_times(a(i), b(j)), root(k * (y - i - j)));
        assert forall|j: int| #![trigger inner(j)] 0 <= j < n implies inner(j) == wanted(j) by {
            let (p, q) = (-(i * k), -(j * k));
            lemma_cx_rearrange(turn, a(i), root(p), b(j), root(q));
            assert(joins(root, k * y, p));
            assert(joins(root, k * y + p, q));
            assert((k * y + -(i * k)) + -(j * k) == k * (y - i - j)) by (nonlinear_arith);
        }
        lemma_cx_tally_same(n, inner, wanted);
    }
    lemma_cx_tally_same(n, outer, want);
}

proof fn lemma_cx_rearrange(t: Cx, a: Cx, u: Cx, b: Cx, v: Cx)
    ensures
        cx_times(cx_times(t, cx_times(a, u)), cx_times(b, v)) == cx_times(cx_times(a, b), cx_times(cx_times(t, u), v)),
{
    let tu = cx_times(t, u);
    assert(cx_times(t, cx_times(a, u)) == cx_times(a, tu)) by {
        lemma_cx_join(t, a, u);
        lemma_cx_swap(t, a);
        lemma_cx_join(a, t, u);
    }
    assert(cx_times(tu, cx_times(b, v)) == cx_times(b, cx_times(tu, v))) by {
        lemma_cx_join(tu, b, v);
        lemma_cx_swap(tu, b);
        lemma_cx_join(b, tu, v);
    }
    lemma_cx_join(a, tu, cx_times(b, v));
    lemma_cx_join(a, b, cx_times(tu, v));
}

/// Products of coefficients, summed back, are the sums around the ring, `n`
/// times over.
pub proof fn lemma_line_convolves(n: int, root: spec_fn(int) -> Cx, a: spec_fn(int) -> Cx, b: spec_fn(int) -> Cx, y: int)
    requires
        n > 0,
        turns(n, root),
        0 <= y < n,
    ensures
        sum_back(n, root, |k: int| cx_times(coefficient(n, root, a, k), coefficient(n, root, b, k)), y) == cx_times(
            plain_cx(n as real),
            around_ring(n, a, b, y),
        ),
{
    let term = |i: int, j: int, k: int| cx_times(cx_times(a(i), b(j)), root(k * (y - i - j)));
    let by_k = |k: int| cx_tally(n, |i: int| cx_tally(n, |j: int| term(i, j, k)));
    let whole = |k: int| cx_times((|k: int| cx_times(coefficient(n, root, a, k), coefficient(n, root, b, k)))(k), root(k * y));
    assert forall|k: int| #![trigger whole(k)] 0 <= k < n implies whole(k) == by_k(k) by {
        lemma_product_spelled_out(n, root, a, b, y, k);
        let spelled = |i: int| cx_tally(n, |j: int| cx_times(cx_times(a(i), b(j)), root(k * (y - i - j))));
        let short = |i: int| cx_tally(n, |j: int| term(i, j, k));
        assert forall|i: int| #![trigger spelled(i)] 0 <= i < n implies spelled(i) == short(i) by {
            lemma_cx_tally_same(n, |j: int| cx_times(cx_times(a(i), b(j)), root(k * (y - i - j))), |j: int| term(i, j, k));
        }
        lemma_cx_tally_same(n, spelled, short);
    }
    lemma_cx_tally_same(n, whole, by_k);
    lemma_cx_tally_same(
        n,
        |j: int| cx_times((|k: int| cx_times(coefficient(n, root, a, k), coefficient(n, root, b, k)))(j), root(j * y)),
        whole,
    );
    // Sum over the coefficients last.
    let inner = |k: int, i: int| cx_tally(n, |j: int| term(i, j, k));
    lemma_cx_tally_swap(n, n, inner);
    let one = |k: int| cx_tally(n, |i: int| inner(k, i));
    assert forall|k: int| #![trigger by_k(k)] 0 <= k < n implies by_k(k) == one(k) by {
        lemma_cx_tally_same(n, |i: int| cx_tally(n, |j: int| term(i, j, k)), |i: int| inner(k, i));
    }
    lemma_cx_tally_same(n, by_k, one);
    lemma_cx_tally_same(n, |k: int| cx_tally(n, |i: int| inner(k, i)), one);
    let by_i = |i: int| cx_tally(n, |k: int| inner(k, i));
    lemma_cx_tally_same(n, |i: int| cx_tally(n, |k: int| inner(k, i)), by_i);
    let ring = |i: int| cx_times(a(i), b((y - i) % n));
    let scaled = |i: int| cx_times(plain_cx(n as real), ring(i));
    assert forall|i: int| #![trigger by_i(i)] 0 <= i < n implies by_i(i) == scaled(i) by {
        let t = |k: int, j: int| term(i, j, k);
        lemma_cx_tally_swap(n, n, t);
        let rows = |k: int| cx_tally(n, |j: int| t(k, j));
        lemma_cx_tally_same(n, |k: int| cx_tally(n, |j: int| t(k, j)), rows);
        assert forall|k: int| #![trigger rows(k)] 0 <= k < n implies rows(k) == inner(k, i) by {
            lemma_cx_tally_same(n, |j: int| t(k, j), |j: int| term(i, j, k));
        }
        lemma_cx_tally_same(n, rows, |k: int| inner(k, i));
        let columns = |j: int| cx_tally(n, |k: int| t(k, j));
        lemma_cx_tally_same(n, |j: int| cx_tally(n, |k: int| t(k, j)), columns);
        let m = (y - i) % n;
        assert forall|j: int| #![trigger columns(j)] 0 <= j < n implies columns(j) == (if j == m {
            scaled(i)
        } else {
            plain_cx(0 as real)
        }) by {
            let d = y - i - j;
            let powers = |k: int| root(k * d);
            assert forall|k: int| #![trigger t(k, j)] 0 <= k < n implies t(k, j) == cx_times(cx_times(a(i), b(j)), powers(k)) by {}
            lemma_cx_tally_times(n, cx_times(a(i), b(j)), powers, |k: int| t(k, j));
            assert(cx_tally(n, powers) == (if d % n == 0 {
                plain_cx(n as real)
            } else {
                plain_cx(0 as real)
            })) by {
                assert(adds_up(n, root, d));
                lemma_cx_tally_same(n, |k: int| root(k * d), powers);
            }
            lemma_whole_turn(y - i, j, n);
            lemma_cx_units(cx_times(a(i), b(j)));
            lemma_cx_swap(cx_times(a(i), b(j)), plain_cx(n as real));
        }
        lemma_cx_tally_one(n, m, columns);
    }
    lemma_cx_tally_same(n, by_i, scaled);
    lemma_cx_tally_times(n, plain_cx(n as real), ring, scaled);
    lemma_cx_tally_same(n, |i: int| cx_times(a(i), b((y - i) % n)), ring);
}

/// Fourier sums of the same values are the same.
pub proof fn lemma_sums_same(n: int, root: spec_fn(int) -> Cx, f: spec_fn(int) -> Cx, g: spec_fn(int) -> Cx, k: int)
    requires
        forall|i: int| #![trigger f(i)] 0 <= i < n ==> f(i) == g(i),
    ensures
        coefficient(n, root, f, k) == coefficient(n, root, g, k),
        sum_back(n, root, f, k) == sum_back(n, root, g, k),
{
    let (tf, tg) = (|j: int| cx_times(f(j), root(-(j * k))), |j: int| cx_times(g(j), root(-(j * k))));
    assert forall|j: int| #![trigger tf(j)] 0 <= j < n implies tf(j) == tg(j) by {
        assert(f(j) == g(j));
    }
    lemma_cx_tally_same(n, tf, tg);
    let (bf, bg) = (|j: int| cx_times(f(j), root(j * k)), |j: int| cx_times(g(j), root(j * k)));
    assert forall|j: int| #![trigger bf(j)] 0 <= j < n implies bf(j) == bg(j) by {
        assert(f(j) == g(j));
    }
    lemma_cx_tally_same(n, bf, bg);
}

/// Sums of several lines, scaled, are summed back line by line.
pub proof fn lemma_lines_summed_back(
    n: int,
    m: int,
    root: spec_fn(int) -> Cx,
    c: Cx,
    g: spec_fn(int, int) -> Cx,
    f: spec_fn(int) -> Cx,
    x: int,
)
    requires
        forall|l: int| #![trigger f(l)] 0 <= l < n ==> f(l) == cx_times(c, cx_tally(m, |v: int| g(v, l))),
    ensures
        sum_back(n, root, f, x) == cx_times(c, cx_tally(m, |v: int| sum_back(n, root, |l: int| g(v, l), x))),
{
    let term = |l: int, v: int| cx_times(g(v, l), root(l * x));
    let whole = |l: int| cx_times(f(l), root(l * x));
    let by_l = |l: int| cx_tally(m, |v: int| term(l, v));
    assert forall|l: int| #![trigger whole(l)] 0 <= l < n implies whole(l) == cx_times(c, by_l(l)) by {
        let (sum, r) = (cx_tally(m, |v: int| g(v, l)), root(l * x));
        assert(f(l) == cx_times(c, sum));
        lemma_cx_join(c, sum, r);
        lemma_cx_swap(sum, r);
        let turned = |v: int| cx_times(r, g(v, l));
        lemma_cx_tally_times(m, r, |v: int| g(v, l), turned);
        assert forall|v: int| #![trigger turned(v)] 0 <= v < m implies turned(v) == term(l, v) by {
            lemma_cx_swap(r, g(v, l));
        }
        lemma_cx_tally_same(m, turned, |v: int| term(l, v));
    }
    lemma_cx_tally_times(n, c, by_l, whole);
    lemma_cx_tally_same(n, |j: int| cx_times(f(j), root(j * x)), whole);
    lemma_cx_tally_swap(n, m, term);
    lemma_cx_tally_same(n, by_l, |l: int| cx_tally(m, |v: int| term(l, v)));
    let by_v = |v: int| cx_tally(n, |l: int| term(l, v));
    let back = |v: int| sum_back(n, root, |l: int| g(v, l), x);
    assert forall|v: int| #![trigger by_v(v)] 0 <= v < m implies by_v(v) == back(v) by {
        lemma_cx_tally_same(n, |l: int| term(l, v), |j: int| cx_times((|l: int| g(v, l))(j), root(j * x)));
    }
    lemma_cx_tally_same(m, |v: int| cx_tally(n, |l: int| term(l, v)), by_v);
    lemma_cx_tally_same(m, by_v, back);
    lemma_cx_tally_same(m, |v: int| sum_back(n, root, |l: int| g(v, l), x), back);
}

/// A sum of real numbers is real.
pub proof fn lemma_plain_tally(n: int, f: spec_fn(int) -> Cx, g: spec_fn(int) -> real)
    requires
        forall|i: int| #![trigger f(i)] 0 <= i < n ==> f(i) == plain_cx(g(i)),
    ensures
        cx_tally(n, f) == plain_cx(tally(n, g)),
    decreases n,
{
    if n > 0 {
        lemma_plain_tally(n - 1, f, g);
        lemma_cx_tally_step(n, f);
        assert(f(n - 1) == plain_cx(g(n - 1)));
    }
}

/// A product of real numbers is real.
pub proof fn lemma_plain_times(a: real, b: real)
    ensures
        cx_times(plain_cx(a), plain_cx(b)) == plain_cx(a * b),
{
    assert(a * (0 as real) == 0 as real) by (nonlinear_arith);
    assert((0 as real) * b == 0 as real) by (nonlinear_arith);
    assert((0 as real) * (0 as real) == 0 as real) by (nonlinear_arith);
}

} // verus!

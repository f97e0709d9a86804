//! Convolution by Fourier sums is the direct sum around a torus.

use crate::complex::{
    coefficient, cx_tally, cx_times, lemma_cx_tally_same, lemma_line_convolves, lemma_lines_summed_back,
    lemma_plain_tally, lemma_plain_times, lemma_sums_same, plain_cx, sum_back, turns, Cx,
};
use crate::exact::rounds;
use crate::lattice::{flat, lemma_flat_bound, lemma_flat_parts};
use crate::physics::Physics;
use crate::spectrum::{backward, column, columns_turned, convolved, forward, pointwise, row, rows_turned, turned};
use crate::tally::{lemma_tally_same, lemma_tally_times, tally};
use vstd::prelude::*;

verus! {

/// The turns by parts of a circle of `n` parts.
pub open spec fn circle(root: spec_fn(int, int) -> Cx, n: int) -> spec_fn(int) -> Cx {
    |k: int| root(n, k)
}

pub open spec fn is_circle(root: spec_fn(int, int) -> Cx, n: int) -> bool {
    turns(n, circle(root, n))
}

/// Value `k` of the Fourier sums of a line, one way or the other.
pub open spec fn line_sum<W>(wave: spec_fn(W) -> Cx, root: spec_fn(int, int) -> Cx, inverse: bool, line: Seq<W>, k: int) -> Cx {
    let n = line.len() as int;
    if inverse {
        sum_back(n, circle(root, n), |j: int| wave(line[j]), k)
    } else {
        coefficient(n, circle(root, n), |j: int| wave(line[j]), k)
    }
}

/// `out` reads as the Fourier sums of `line`.
pub open spec fn line_summed<W>(wave: spec_fn(W) -> Cx, root: spec_fn(int, int) -> Cx, inverse: bool, line: Seq<W>, out: Seq<W>) -> bool {
    &&& out.len() == line.len()
    &&& forall|k: int| 0 <= k < out.len() ==> wave(#[trigger] out[k]) == line_sum(wave, root, inverse, line, k)
}

/// Transforms of lines are Fourier sums, and coefficients are complex numbers,
/// as `wave` reads them off, with `root(n, k)` the turn by `k` of `n` parts.
pub open spec fn fourier<P: Physics>(
    p: P,
    val: spec_fn(P::Real) -> real,
    wave: spec_fn(P::Wave) -> Cx,
    root: spec_fn(int, int) -> Cx,
) -> bool {
    &&& forall|n: int| n > 0 ==> #[trigger] is_circle(root, n)
    &&& forall|v: P::Real, r: P::Wave| #[trigger] call_ensures(P::lift, (&p, v), r) ==> wave(r) == plain_cx(val(v))
    &&& forall|a: P::Wave, b: P::Wave, r: P::Wave| #[trigger]
        call_ensures(P::product, (&p, a, b), r) ==> wave(r) == cx_times(wave(a), wave(b))
    &&& forall|v: P::Wave, n: usize, r: P::Real| #[trigger]
        call_ensures(P::settle, (&p, v, n), r) && n > 0 ==> val(r) * ((n as int) as real) == wave(v).re
    &&& forall|inverse: bool, line: Seq<P::Wave>, out: Seq<P::Wave>| #[trigger]
        turned(p, inverse, line, out) ==> line_summed(wave, root, inverse, line, out)
}

/// What a row comes to.
proof fn lemma_row_summed<P: Physics>(
    p: P,
    val: spec_fn(P::Real) -> real,
    wave: spec_fn(P::Wave) -> Cx,
    root: spec_fn(int, int) -> Cx,
    inverse: bool,
    h: int,
    w: int,
    before: Seq<P::Wave>,
    after: Seq<P::Wave>,
    f: spec_fn(int) -> Cx,
    y: int,
    l: int,
)
    requires
        fourier(p, val, wave, root),
        before.len() == h * w,
        rows_turned(p, inverse, h, w, before, after),
        0 <= y < h,
        0 <= l < w,
        forall|x: int| #![trigger f(x)] 0 <= x < w ==> f(x) == wave(before[flat(w, y, x)]),
    ensures
        wave(after[flat(w, y, l)]) == (if inverse {
            sum_back(w, circle(root, w), f, l)
        } else {
            coefficient(w, circle(root, w), f, l)
        }),
{
    lemma_flat_bound(h, w, y, l);
    let (line, out) = (row(before, w, y), row(after, w, y));
    assert(turned(p, inverse, line, out));
    assert(line_summed(wave, root, inverse, line, out));
    assert(out[l] == after[flat(w, y, l)]);
    let g = |j: int| wave(line[j]);
    assert forall|j: int| #![trigger g(j)] 0 <= j < w implies g(j) == f(j) by {
        assert(line[j] == before[flat(w, y, j)]);
    }
    lemma_sums_same(w, circle(root, w), g, f, l);
}

/// What a column comes to.
proof fn lemma_column_summed<P: Physics>(
    p: P,
    val: spec_fn(P::Real) -> real,
    wave: spec_fn(P::Wave) -> Cx,
    root: spec_fn(int, int) -> Cx,
    inverse: bool,
    h: int,
    w: int,
    before: Seq<P::Wave>,
    after: Seq<P::Wave>,
    f: spec_fn(int) -> Cx,
    k: int,
    x: int,
)
    requires
        fourier(p, val, wave, root),
        columns_turned(p, inverse, h, w, before, after),
        0 <= k < h,
        0 <= x < w,
        forall|y: int| #![trigger f(y)] 0 <= y < h ==> f(y) == wave(before[flat(w, y, x)]),
    ensures
        wave(after[flat(w, k, x)]) == (if inverse {
            sum_back(h, circle(root, h), f, k)
        } else {
            coefficient(h, circle(root, h), f, k)
        }),
{
    let (line, out) = (column(before, h, w, x), column(after, h, w, x));
    assert(turned(p, inverse, line, out));
    assert(line_summed(wave, root, inverse, line, out));
    assert(out[k] == after[flat(w, k, x)]);
    let g = |j: int| wave(line[j]);
    assert forall|j: int| #![trigger g(j)] 0 <= j < h implies g(j) == f(j) by {
        assert(line[j] == before[flat(w, j, x)]);
    }
    lemma_sums_same(h, circle(root, h), g, f, k);
}

/// What row `y` of a field reads.
spec fn line_of<R>(val: spec_fn(R) -> real, field: Seq<R>, w: int, y: int) -> spec_fn(int) -> Cx {
    |x: int| plain_cx(val(field[flat(w, y, x)]))
}

/// Coefficient `l` of each row of a field.
spec fn rows_of<R>(val: spec_fn(R) -> real, root: spec_fn(int, int) -> Cx, field: Seq<R>, w: int, l: int) -> spec_fn(int) -> Cx {
    |y: int| coefficient(w, circle(root, w), line_of(val, field, w, y), l)
}

/// What a spectrum comes to.
proof fn lemma_forward_summed<P: Physics>(
    p: P,
    val: spec_fn(P::Real) -> real,
    wave: spec_fn(P::Wave) -> Cx,
    root: spec_fn(int, int) -> Cx,
    h: int,
    w: int,
    field: Seq<P::Real>,
    out: Seq<P::Wave>,
    k: int,
    l: int,
)
    requires
        fourier(p, val, wave, root),
        forward(p, h, w, field, out),
        field.len() == h * w,
        0 <= k < h,
        0 <= l < w,
    ensures
        out.len() == h * w,
        wave(out[flat(w, k, l)]) == coefficient(h, circle(root, h), rows_of(val, root, field, w, l), k),
{
    let (lifted, mid) = choose|lifted: Seq<P::Wave>, mid: Seq<P::Wave>| #[trigger]
        rows_turned(p, false, h, w, lifted, mid) && lifted.len() == field.len() && (forall|i: int|
            0 <= i < field.len() ==> call_ensures(P::lift, (&p, field[i]), #[trigger] lifted[i])) && columns_turned(
            p,
            false,
            h,
            w,
            mid,
            out,
        );
    let f = rows_of(val, root, field, w, l);
    assert forall|y: int| #![trigger f(y)] 0 <= y < h implies f(y) == wave(mid[flat(w, y, l)]) by {
        let g = line_of(val, field, w, y);
        assert forall|x: int| #![trigger g(x)] 0 <= x < w implies g(x) == wave(lifted[flat(w, y, x)]) by {
            lemma_flat_bound(h, w, y, x);
            let i = flat(w, y, x);
            assert(call_ensures(P::lift, (&p, field[i]), lifted[i]));
        }
        lemma_row_summed(p, val, wave, root, false, h, w, lifted, mid, g, y, l);
    }
    lemma_column_summed(p, val, wave, root, false, h, w, mid, out, f, k, l);
}

/// The sum over a row, and over the rows, is the sum over all cells.
proof fn lemma_tally_rows(h: int, w: int, f: spec_fn(int) -> real, rows: spec_fn(int) -> real)
    requires
        h >= 0,
        w >= 0,
        forall|v: int| #![trigger rows(v)] 0 <= v < h ==> rows(v) == tally(w, |u: int| f(flat(w, v, u))),
    ensures
        tally(h * w, f) == tally(h, rows),
    decreases h,
{
    if h > 0 {
        lemma_tally_rows(h - 1, w, f, rows);
        assert(h * w == (h - 1) * w + w && (h - 1) * w >= 0) by (nonlinear_arith)
            requires
                h > 0,
                w >= 0,
        ;
        let next = |u: int| f(flat(w, h - 1, u));
        lemma_tally_split((h - 1) * w, w, f, next);
        assert(rows(h - 1) == tally(w, |u: int| f(flat(w, h - 1, u))));
        lemma_tally_same(w, |u: int| f(flat(w, h - 1, u)), next);
    } else {
        assert(0 * w == 0);
    }
}

proof fn lemma_tally_split(n: int, m: int, f: spec_fn(int) -> real, rest: spec_fn(int) -> real)
    requires
        n >= 0,
        m >= 0,
        forall|i: int| #![trigger rest(i)] 0 <= i < m ==> rest(i) == f(n + i),
    ensures
        tally(n + m, f) == tally(n, f) + tally(m, rest),
    decreases m,
{
    if m > 0 {
        lemma_tally_split(n, m - 1, f, rest);
        assert(rest(m - 1) == f(n + (m - 1)));
        assert(n + m - 1 == n + (m - 1));
    }
}

/// The sums of products around the row.
spec fn row_ring<R>(val: spec_fn(R) -> real, h: int, w: int, a: Seq<R>, b: Seq<R>, y: int, x: int) -> spec_fn(int) -> real {
    |v: int| tally(w, |u: int| val(a[flat(w, v, u)]) * val(b[flat(w, (y - v) % h, (x - u) % w)]))
}

/// The sum of products around the row `v` of `a`, worked out from coefficients.
proof fn lemma_row_convolves<R>(
    val: spec_fn(R) -> real,
    root: spec_fn(int, int) -> Cx,
    h: int,
    w: int,
    a: Seq<R>,
    b: Seq<R>,
    y: int,
    x: int,
    v: int,
    f: spec_fn(int) -> Cx,
)
    requires
        is_circle(root, w),
        h > 0,
        0 <= x < w,
        forall|l: int|
            #![trigger f(l)]
            0 <= l < w ==> f(l) == cx_times(rows_of(val, root, a, w, l)(v), rows_of(val, root, b, w, l)((y - v) % h)),
    ensures
        sum_back(w, circle(root, w), f, x) == plain_cx(w as real * row_ring(val, h, w, a, b, y, x)(v)),
{
    let (ra, rb) = (line_of(val, a, w, v), line_of(val, b, w, (y - v) % h));
    let c = circle(root, w);
    let products = |k: int| cx_times(coefficient(w, c, ra, k), coefficient(w, c, rb, k));
    assert forall|l: int| #![trigger f(l)] 0 <= l < w implies f(l) == products(l) by {}
    lemma_sums_same(w, c, f, products, x);
    lemma_line_convolves(w, c, ra, rb, x);
    let sums = |u: int| val(a[flat(w, v, u)]) * val(b[flat(w, (y - v) % h, (x - u) % w)]);
    let terms = |i: int| cx_times(ra(i), rb((x - i) % w));
    assert forall|i: int| #![trigger terms(i)] 0 <= i < w implies terms(i) == plain_cx(sums(i)) by {
        lemma_plain_times(val(a[flat(w, v, i)]), val(b[flat(w, (y - v) % h, (x - i) % w)]));
    }
    lemma_plain_tally(w, terms, sums);
    lemma_cx_tally_same(w, |i: int| cx_times(ra(i), rb((x - i) % w)), terms);
    lemma_tally_same(w, |u: int| val(a[flat(w, v, u)]) * val(b[flat(w, (y - v) % h, (x - u) % w)]), sums);
    lemma_plain_times(w as real, tally(w, sums));
}

/// What the products of two spectra come to in a cell: the sum around the
/// torus, as many times over as there are cells.
proof fn lemma_cell_convolves<P: Physics>(
    p: P,
    val: spec_fn(P::Real) -> real,
    wave: spec_fn(P::Wave) -> Cx,
    root: spec_fn(int, int) -> Cx,
    h: int,
    w: int,
    a: Seq<P::Real>,
    b: Seq<P::Real>,
    fa: Seq<P::Wave>,
    fb: Seq<P::Wave>,
    ab: Seq<P::Wave>,
    mid: Seq<P::Wave>,
    last: Seq<P::Wave>,
    y: int,
    x: int,
)
    requires
        fourier(p, val, wave, root),
        a.len() == h * w,
        b.len() == h * w,
        forward(p, h, w, a, fa),
        forward(p, h, w, b, fb),
        pointwise(p, fa, fb, ab),
        columns_turned(p, true, h, w, ab, mid),
        rows_turned(p, true, h, w, mid, last),
        0 <= y < h,
        0 <= x < w,
    ensures
        wave(last[flat(w, y, x)]) == plain_cx(h as real * (w as real * tally(h, row_ring(val, h, w, a, b, y, x)))),
{
    assert(is_circle(root, h) && is_circle(root, w));
    let (ch, cw) = (circle(root, h), circle(root, w));
    let g = |v: int, l: int| cx_times(rows_of(val, root, a, w, l)(v), rows_of(val, root, b, w, l)((y - v) % h));
    let f = |l: int| wave(mid[flat(w, y, l)]);
    let times = plain_cx(h as real);
    assert forall|l: int| #![trigger f(l)] 0 <= l < w implies f(l) == cx_times(times, cx_tally(h, |v: int| g(v, l))) by {
        let (ra, rb) = (rows_of(val, root, a, w, l), rows_of(val, root, b, w, l));
        let products = |k: int| cx_times(coefficient(h, ch, ra, k), coefficient(h, ch, rb, k));
        assert forall|k: int| #![trigger products(k)] 0 <= k < h implies products(k) == wave(ab[flat(w, k, l)]) by {
            lemma_flat_bound(h, w, k, l);
            lemma_forward_summed(p, val, wave, root, h, w, a, fa, k, l);
            lemma_forward_summed(p, val, wave, root, h, w, b, fb, k, l);
            let i = flat(w, k, l);
            assert(call_ensures(P::product, (&p, fa[i], fb[i]), ab[i]));
        }
        lemma_column_summed(p, val, wave, root, true, h, w, ab, mid, products, y, l);
        lemma_line_convolves(h, ch, ra, rb, y);
        lemma_cx_tally_same(h, |i: int| cx_times(ra(i), rb((y - i) % h)), |v: int| g(v, l));
    }
    lemma_row_summed(p, val, wave, root, true, h, w, mid, last, f, y, x);
    lemma_lines_summed_back(w, h, cw, times, g, f, x);
    let rings = row_ring(val, h, w, a, b, y, x);
    let scaled = |v: int| w as real * rings(v);
    let back = |v: int| sum_back(w, cw, |l: int| g(v, l), x);
    assert forall|v: int| #![trigger back(v)] 0 <= v < h implies back(v) == plain_cx(scaled(v)) by {
        lemma_row_convolves(val, root, h, w, a, b, y, x, v, |l: int| g(v, l));
    }
    lemma_cx_tally_same(h, |v: int| sum_back(w, cw, |l: int| g(v, l), x), back);
    lemma_plain_tally(h, back, scaled);
    lemma_tally_times(h, w as real, rings, scaled);
    lemma_plain_times(h as real, tally(h, scaled));
}

/// Convolution by Fourier sums is the direct sum around a torus.
pub proof fn law_convolution_is_the_sum_around_a_torus<P: Physics>(
    p: P,
    val: spec_fn(P::Real) -> real,
    wave: spec_fn(P::Wave) -> Cx,
    root: spec_fn(int, int) -> Cx,
    h: int,
    w: int,
    a: Seq<P::Real>,
    b: Seq<P::Real>,
    out: Seq<P::Real>,
)
    requires
        fourier(p, val, wave, root),
        0 < h,
        0 < w,
        h * w <= usize::MAX,
        a.len() == h * w,
        b.len() == h * w,
        convolved(p, h, w, a, b, out),
    ensures
        rounds(val, h, w, a, b, out),
{
    let (fa, fb, ab) = choose|fa: Seq<P::Wave>, fb: Seq<P::Wave>, ab: Seq<P::Wave>|
        forward(p, h, w, a, fa) && forward(p, h, w, b, fb) && #[trigger] pointwise(p, fa, fb, ab) && backward(p, h, w, ab, out);
    let (mid, last) = choose|mid: Seq<P::Wave>, last: Seq<P::Wave>| #[trigger]
        rows_turned(p, true, h, w, mid, last) && columns_turned(p, true, h, w, ab, mid) && out.len() == last.len() && (
        forall|i: int| 0 <= i < last.len() ==> call_ensures(P::settle, (&p, last[i], (h * w) as usize), #[trigger] out[i]));
    assert forall|y: int, x: int| 0 <= y < h && 0 <= x < w implies val(#[trigger] out[flat(w, y, x)]) == tally(
        h * w,
        |c: int| val(a[c]) * val(b[flat(w, (y - c / w) % h, (x - c % w) % w)]),
    ) by {
        lemma_flat_bound(h, w, y, x);
        let i = flat(w, y, x);
        let n = (h * w) as usize;
        assert(call_ensures(P::settle, (&p, last[i], n), out[i]));
        lemma_cell_convolves(p, val, wave, root, h, w, a, b, fa, fb, ab, mid, last, y, x);
        let rings = row_ring(val, h, w, a, b, y, x);
        let s = tally(h, rings);
        let (hr, wr, nr, got) = (h as real, w as real, (n as int) as real, val(out[i]));
        assert(nr == hr * wr) by {
            lemma_product_as_real(h, w);
        }
        assert(got == s) by (nonlinear_arith)
            requires
                got * nr == hr * (wr * s),
                nr == hr * wr,
                hr > 0 as real,
                wr > 0 as real,
        ;
        let f = |c: int| val(a[c]) * val(b[flat(w, (y - c / w) % h, (x - c % w) % w)]);
        assert forall|v: int| #![trigger rings(v)] 0 <= v < h implies rings(v) == tally(w, |u: int| f(flat(w, v, u))) by {
            let direct = |u: int| val(a[flat(w, v, u)]) * val(b[flat(w, (y - v) % h, (x - u) % w)]);
            assert forall|u: int| #![trigger direct(u)] 0 <= u < w implies direct(u) == f(flat(w, v, u)) by {
                lemma_flat_parts(w, v, u);
            }
            lemma_tally_same(w, direct, |u: int| f(flat(w, v, u)));
            lemma_tally_same(w, |u: int| val(a[flat(w, v, u)]) * val(b[flat(w, (y - v) % h, (x - u) % w)]), direct);
        }
        lemma_tally_rows(h, w, f, rings);
    }
}

/// A product counted in whole numbers is the product.
pub proof fn lemma_product_as_real(h: int, w: int)
    requires
        h >= 0,
    ensures
        (h * w) as real == h as real * w as real,
    decreases h,
{
    if h > 0 {
        lemma_product_as_real(h - 1, w);
        assert(h * w == (h - 1) * w + w) by (nonlinear_arith);
        let (less, all, wr) = ((h - 1) as real, h as real, w as real);
        assert(all * wr == less * wr + wr) by (nonlinear_arith)
            requires
                all == less + 1 as real,
        ;
    } else {
        let wr = w as real;
        assert(0 * w == 0);
        assert(0 as real * wr == 0 as real) by (nonlinear_arith);
    }
}

} // verus!

//! Two-dimensional transforms made of one-dimensional ones, and the circular
//! convolution that they give.

use crate::lattice::{flat, grid, lemma_flat_bound};
use crate::physics::Physics;
use vstd::prelude::*;

verus! {

pub open spec fn row<C>(cells: Seq<C>, w: int, y: int) -> Seq<C> {
    cells.subrange(y * w, y * w + w)
}

pub open spec fn column<C>(cells: Seq<C>, h: int, w: int, x: int) -> Seq<C> {
    Seq::new(h as nat, |y: int| cells[flat(w, y, x)])
}

/// Transforms give back as many coefficients as they are handed.
pub open spec fn keeps_length<P: Physics>(p: P) -> bool {
    forall|line: Vec<P::Wave>, inverse: bool, r: Vec<P::Wave>| #[trigger]
        call_ensures(P::transform, (&p, line, inverse), r) ==> r@.len() == line@.len()
}

/// `out` may come of transforming `line`.
pub open spec fn turned<P: Physics>(p: P, inverse: bool, line: Seq<P::Wave>, out: Seq<P::Wave>) -> bool {
    exists|v: Vec<P::Wave>, r: Vec<P::Wave>| #[trigger]
        call_ensures(P::transform, (&p, v, inverse), r) && v@ == line && r@ == out
}

/// Every row of `after` is the transform of that row of `before`.
pub open spec fn rows_turned<P: Physics>(p: P, inverse: bool, h: int, w: int, before: Seq<P::Wave>, after: Seq<P::Wave>) -> bool {
    &&& after.len() == h * w
    &&& forall|y: int| 0 <= y < h ==> turned(p, inverse, #[trigger] row(before, w, y), row(after, w, y))
}

/// Every column of `after` is the transform of that column of `before`.
pub open spec fn columns_turned<P: Physics>(p: P, inverse: bool, h: int, w: int, before: Seq<P::Wave>, after: Seq<P::Wave>) -> bool {
    &&& after.len() == h * w
    &&& forall|x: int| 0 <= x < w ==> turned(p, inverse, #[trigger] column(before, h, w, x), column(after, h, w, x))
}

/// `out` is the spectrum of the real field `field`.
pub open spec fn forward<P: Physics>(p: P, h: int, w: int, field: Seq<P::Real>, out: Seq<P::Wave>) -> bool {
    exists|lifted: Seq<P::Wave>, mid: Seq<P::Wave>| #[trigger]
        rows_turned(p, false, h, w, lifted, mid) && lifted.len() == field.len() && (forall|i: int|
            0 <= i < field.len() ==> call_ensures(P::lift, (&p, field[i]), #[trigger] lifted[i])) && columns_turned(
            p,
            false,
            h,
            w,
            mid,
            out,
        )
}

/// `out` is the real field whose spectrum is `waves`.
pub open spec fn backward<P: Physics>(p: P, h: int, w: int, waves: Seq<P::Wave>, out: Seq<P::Real>) -> bool {
    exists|mid: Seq<P::Wave>, last: Seq<P::Wave>| #[trigger]
        rows_turned(p, true, h, w, mid, last) && columns_turned(p, true, h, w, waves, mid) && out.len() == last.len() && (
        forall|i: int| 0 <= i < last.len() ==> call_ensures(P::settle, (&p, last[i], (h * w) as usize), #[trigger] out[i]))
}

/// `out` is the convolution of `a` by `b` around a torus of `h` by `w` cells.
pub open spec fn convolved<P: Physics>(p: P, h: int, w: int, a: Seq<P::Real>, b: Seq<P::Real>, out: Seq<P::Real>) -> bool {
    exists|fa: Seq<P::Wave>, fb: Seq<P::Wave>, ab: Seq<P::Wave>|
        forward(p, h, w, a, fa) && forward(p, h, w, b, fb) && #[trigger] pointwise(p, fa, fb, ab) && backward(p, h, w, ab, out)
}

/// `ab` holds the products of `a` and `b`, coefficient by coefficient.
pub open spec fn pointwise<P: Physics>(p: P, a: Seq<P::Wave>, b: Seq<P::Wave>, ab: Seq<P::Wave>) -> bool {
    &&& ab.len() == a.len()
    &&& forall|i: int| 0 <= i < a.len() ==> call_ensures(P::product, (&p, a[i], b[i]), #[trigger] ab[i])
}

fn transform_rows<P: Physics>(p: &P, inverse: bool, h: usize, w: usize, cells: &Vec<P::Wave>) -> (out: Vec<P::Wave>)
    requires
        keeps_length(*p),
        cells@.len() == h * w,
    ensures
        rows_turned(*p, inverse, h as int, w as int, cells@, out@),
{
    let n = cells.len();
    let mut out: Vec<P::Wave> = Vec::with_capacity(n);
    let mut y: usize = 0;
    while y < h
        invariant
            y <= h,
            keeps_length(*p),
            cells@.len() == n == h * w,
            out@.len() == y * w,
            forall|v: int| 0 <= v < y ==> turned(*p, inverse, #[trigger] row(cells@, w as int, v), row(out@, w as int, v)),
        decreases h - y,
    {
        proof {
            assert(0 <= y * w && y * w + w <= h * w && (y + 1) * w == y * w + w) by (nonlinear_arith)
                requires
                    0 <= y < h,
                    0 <= w,
            ;
        }
        let mut line: Vec<P::Wave> = Vec::with_capacity(w);
        let mut x: usize = 0;
        while x < w
            invariant
                x <= w,
                line@.len() == x,
                y * w + w <= cells@.len() == n,
                forall|u: int| 0 <= u < x ==> #[trigger] line@[u] == cells@[y * w + u],
            decreases w - x,
        {
            line.push(cells[y * w + x]);
            x = x + 1;
        }
        assert(line@ =~= row(cells@, w as int, y as int));
        let ghost given = line;
        let mut done = p.transform(line, inverse);
        assert(call_ensures(P::transform, (p, given, inverse), done));
        assert(turned(*p, inverse, row(cells@, w as int, y as int), done@));
        let ghost before = out@;
        let ghost piece = done@;
        out.append(&mut done);
        proof {
            assert(out@ =~= before + piece);
            assert forall|v: int| 0 <= v < y + 1 implies turned(
                *p,
                inverse,
                #[trigger] row(cells@, w as int, v),
                row(out@, w as int, v),
            ) by {
                if v < y {
                    assert(0 <= v * w && v * w + w <= y * w) by (nonlinear_arith)
                        requires
                            0 <= v < y,
                            0 <= w,
                    ;
                    assert(row(out@, w as int, v) =~= row(before, w as int, v));
                } else {
                    assert(row(out@, w as int, v) =~= piece);
                }
            }
        }
        y = y + 1;
    }
    out
}

fn transform_columns<P: Physics>(p: &P, inverse: bool, h: usize, w: usize, cells: &Vec<P::Wave>) -> (out: Vec<P::Wave>)
    requires
        keeps_length(*p),
        cells@.len() == h * w,
    ensures
        columns_turned(*p, inverse, h as int, w as int, cells@, out@),
{
    let n = cells.len();
    let mut columns: Vec<Vec<P::Wave>> = Vec::with_capacity(w);
    let mut x: usize = 0;
    while x < w
        invariant
            x <= w,
            keeps_length(*p),
            cells@.len() == n == h * w,
            columns@.len() == x,
            forall|u: int|
                0 <= u < x ==> (#[trigger] columns@[u])@.len() == h && turned(
                    *p,
                    inverse,
                    column(cells@, h as int, w as int, u),
                    columns@[u]@,
                ),
        decreases w - x,
    {
        let mut line: Vec<P::Wave> = Vec::with_capacity(h);
        let mut y: usize = 0;
        while y < h
            invariant
                x < w,
                y <= h,
                line@.len() == y,
                cells@.len() == n == h * w,
                forall|v: int| 0 <= v < y ==> #[trigger] line@[v] == cells@[flat(w as int, v, x as int)],
            decreases h - y,
        {
            proof {
                lemma_flat_bound(h as int, w as int, y as int, x as int);
            }
            line.push(cells[y * w + x]);
            y = y + 1;
        }
        assert(line@ =~= column(cells@, h as int, w as int, x as int));
        let ghost given = line;
        let done = p.transform(line, inverse);
        assert(call_ensures(P::transform, (p, given, inverse), done));
        columns.push(done);
        x = x + 1;
    }
    let pick = |y: usize, x: usize| -> (v: P::Wave)
        requires
            y < h,
            x < columns@.len(),
            columns@[x as int]@.len() == h,
        ensures
            v == columns@[x as int]@[y as int],
        { columns[x][y] };
    let out = grid(h, w, &pick);
    proof {
        assert forall|x: int| 0 <= x < w implies turned(
            *p,
            inverse,
            #[trigger] column(cells@, h as int, w as int, x),
            column(out@, h as int, w as int, x),
        ) by {
            assert forall|y: int| 0 <= y < h implies #[trigger] out@[flat(w as int, y, x)] == columns@[x]@[y] by {
                assert(pick.ensures((y as usize, x as usize), out@[flat(w as int, y as usize as int, x as usize as int)]));
            }
            assert(column(out@, h as int, w as int, x) =~= columns@[x]@);
        }
    }
    out
}

/// The spectrum of a real field: rows first, columns next.
fn spectrum<P: Physics>(p: &P, h: usize, w: usize, field: &Vec<P::Real>) -> (out: Vec<P::Wave>)
    requires
        keeps_length(*p),
        field@.len() == h * w,
    ensures
        forward(*p, h as int, w as int, field@, out@),
        out@.len() == h * w,
{
    let n = field.len();
    let mut lifted: Vec<P::Wave> = Vec::with_capacity(n);
    let mut i: usize = 0;
    while i < n
        invariant
            i <= n == field@.len(),
            lifted@.len() == i,
            forall|k: int| 0 <= k < i ==> call_ensures(P::lift, (p, field@[k]), #[trigger] lifted@[k]),
        decreases n - i,
    {
        lifted.push(p.lift(field[i]));
        i = i + 1;
    }
    let mid = transform_rows(p, false, h, w, &lifted);
    let out = transform_columns(p, false, h, w, &mid);
    assert(rows_turned(*p, false, h as int, w as int, lifted@, mid@));
    out
}

/// The real field of a spectrum: columns first, rows next.
fn real_field<P: Physics>(p: &P, h: usize, w: usize, waves: &Vec<P::Wave>) -> (out: Vec<P::Real>)
    requires
        keeps_length(*p),
        waves@.len() == h * w,
    ensures
        backward(*p, h as int, w as int, waves@, out@),
        out@.len() == h * w,
{
    let n = waves.len();
    let mid = transform_columns(p, true, h, w, waves);
    let last = transform_rows(p, true, h, w, &mid);
    let mut out: Vec<P::Real> = Vec::with_capacity(n);
    let mut i: usize = 0;
    while i < n
        invariant
            i <= n == last@.len(),
            out@.len() == i,
            forall|k: int| 0 <= k < i ==> call_ensures(P::settle, (p, last@[k], n), #[trigger] out@[k]),
        decreases n - i,
    {
        out.push(p.settle(last[i], n));
        i = i + 1;
    }
    assert(rows_turned(*p, true, h as int, w as int, mid@, last@));
    out
}

/// Convolves `a` by `b` around a torus of `h` by `w` cells.
pub fn convolve_torus<P: Physics>(p: &P, h: usize, w: usize, a: &Vec<P::Real>, b: &Vec<P::Real>) -> (out: Vec<P::Real>)
    requires
        keeps_length(*p),
        a@.len() == h * w,
        b@.len() == h * w,
    ensures
        convolved(*p, h as int, w as int, a@, b@, out@),
        out@.len() == h * w,
{
    let n = a.len();
    let fa = spectrum(p, h, w, a);
    let fb = spectrum(p, h, w, b);
    let mut ab: Vec<P::Wave> = Vec::with_capacity(n);
    let mut i: usize = 0;
    while i < n
        invariant
            i <= n == fa@.len(),
            fa@.len() == fb@.len(),
            ab@.len() == i,
            forall|k: int| 0 <= k < i ==> call_ensures(P::product, (p, fa@[k], fb@[k]), #[trigger] ab@[k]),
        decreases n - i,
    {
        ab.push(p.product(fa[i], fb[i]));
        i = i + 1;
    }
    let out = real_field(p, h, w, &ab);
    assert(pointwise(*p, fa@, fb@, ab@));
    out
}

} // verus!

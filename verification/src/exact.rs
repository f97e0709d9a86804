//! What the gas does where its arithmetic is exact.

use crate::complex::Cx;
use crate::convolve::{
    ceil_pow2, embedded, field_fits, full_fits, law_torus_keeps_table_apart, law_walls_keep_tables_apart, lemma_ceil_pow2, margin,
    padded, spread, spread_by, spread_full, spread_full_by, wrapped, wrapped_at,
};
use crate::fold::{folded, partials};
use crate::formulas::{total_by, total_is};
use crate::kernel::side;
use crate::lattice::{flat, gap, lemma_flat_bound, lemma_flat_injective, lemma_flat_inverse, lemma_flat_parts};
use crate::physics::{plus_step, summed, Physics};
use crate::plane::{fourier, law_convolution_is_the_sum_around_a_torus};
use crate::proposal::{Board, Site};
use crate::scene::{charged, totals, totals_by};
use crate::sim::Layout;
use crate::spectrum::convolved;
use crate::tally::{hits, lemma_tally_places, lemma_tally_same, tally};
use vstd::prelude::*;

verus! {

/// The arithmetic is exact on the numbers that `val` reads off: sums, products
/// and halves are what they should be, and transforms of lines are Fourier sums.
pub open spec fn exact<P: Physics>(p: P, val: spec_fn(P::Real) -> real) -> bool {
    &&& forall|r: P::Real| #[trigger] call_ensures(P::zero, (&p,), r) ==> val(r) == 0 as real
    &&& forall|r: P::Real| #[trigger] call_ensures(P::one, (&p,), r) ==> val(r) == 1 as real
    &&& forall|r: P::Real| #[trigger] call_ensures(P::half, (&p,), r) ==> val(r) + val(r) == 1 as real
    &&& forall|a: P::Real, b: P::Real, r: P::Real| #[trigger]
        call_ensures(P::plus, (&p, a, b), r) ==> val(r) == val(a) + val(b)
    &&& forall|a: P::Real, b: P::Real, r: P::Real| #[trigger]
        call_ensures(P::minus, (&p, a, b), r) ==> val(r) == val(a) - val(b)
    &&& forall|a: P::Real, b: P::Real, r: P::Real| #[trigger]
        call_ensures(P::times, (&p, a, b), r) ==> val(r) == val(a) * val(b)
    &&& exists|wave: spec_fn(P::Wave) -> Cx, root: spec_fn(int, int) -> Cx| #[trigger] fourier(p, val, wave, root)
}

/// Convolution is then the direct sum around a torus.
pub proof fn lemma_convolved_exact<P: Physics>(
    p: P,
    val: spec_fn(P::Real) -> real,
    h: int,
    w: int,
    a: Seq<P::Real>,
    b: Seq<P::Real>,
    out: Seq<P::Real>,
)
    requires
        exact(p, val),
        0 < h,
        0 < w,
        h * w <= usize::MAX,
        a.len() == h * w,
        b.len() == h * w,
        convolved(p, h, w, a, b, out),
    ensures
        rounds(val, h, w, a, b, out),
{
    let (wave, root) = choose|wave: spec_fn(P::Wave) -> Cx, root: spec_fn(int, int) -> Cx| #[trigger] fourier(p, val, wave, root);
    law_convolution_is_the_sum_around_a_torus(p, val, wave, root, h, w, a, b, out);
}

/// `out` reads as the sums of `a` around a torus, weighed by `b`.
pub open spec fn rounds<R>(val: spec_fn(R) -> real, h: int, w: int, a: Seq<R>, b: Seq<R>, out: Seq<R>) -> bool {
    forall|y: int, x: int|
        0 <= y < h && 0 <= x < w ==> val(#[trigger] out[flat(w, y, x)]) == tally(
            h * w,
            |c: int| val(a[c]) * val(b[flat(w, (y - c / w) % h, (x - c % w) % w)]),
        )
}

/// Adding is exact, and starts from nothing.
pub open spec fn adds_up<P: Physics>(p: P, val: spec_fn(P::Real) -> real) -> bool {
    &&& forall|r: P::Real| #[trigger] call_ensures(P::zero, (&p,), r) ==> val(r) == 0 as real
    &&& forall|a: P::Real, b: P::Real, r: P::Real| #[trigger]
        call_ensures(P::plus, (&p, a, b), r) ==> val(r) == val(a) + val(b)
}

/// Sums are then exact, however long.
pub proof fn lemma_summed_exact<P: Physics>(p: P, val: spec_fn(P::Real) -> real, terms: Seq<P::Real>, r: P::Real)
    requires
        adds_up(p, val),
        summed(p, terms, r),
    ensures
        val(r) == tally(terms.len() as int, |i: int| val(terms[i])),
{
    let z = choose|z: P::Real| #[trigger] call_ensures(P::zero, (&p,), z) && folded(plus_step(p), z, terms, r);
    let trace = choose|trace: Seq<P::Real>| #[trigger] partials(plus_step(p), z, terms, trace) && trace.last() == r;
    lemma_partials_exact(p, val, z, terms, trace, terms.len());
}

proof fn lemma_partials_exact<P: Physics>(
    p: P,
    val: spec_fn(P::Real) -> real,
    z: P::Real,
    terms: Seq<P::Real>,
    trace: Seq<P::Real>,
    n: nat,
)
    requires
        adds_up(p, val),
        call_ensures(P::zero, (&p,), z),
        partials(plus_step(p), z, terms, trace),
        n <= terms.len(),
    ensures
        val(trace[n as int]) == tally(n as int, |i: int| val(terms[i])),
    decreases n,
{
    if n > 0 {
        lemma_partials_exact(p, val, z, terms, trace, (n - 1) as nat);
        let term = terms[n - 1];
        assert(plus_step(p)(trace[n - 1], term, trace[n as int]));
        assert(call_ensures(P::plus, (&p, trace[n - 1], term), trace[n as int]));
    }
}

/// What a table that reaches `rc` cells reads at the step `(dy, dx)` from its
/// centre, nothing outside.
pub open spec fn entry<R>(val: spec_fn(R) -> real, table: Seq<R>, rc: int, dy: int, dx: int) -> real {
    if -rc <= dy <= rc && -rc <= dx <= rc {
        val(table[flat(side(rc), dy + rc, dx + rc)])
    } else {
        0 as real
    }
}

/// What cell `c` of a field adds to the potential on `(y, x)`, through a table
/// laid around it.
pub open spec fn share_of<R>(
    val: spec_fn(R) -> real,
    field: Seq<R>,
    h: int,
    w: int,
    table: Seq<R>,
    rc: int,
    periodic: bool,
    y: int,
    x: int,
    c: int,
) -> real {
    val(field[c]) * entry(val, table, rc, gap(y, c / w, h, periodic), gap(x, c % w, w, periodic))
}

/// The machine has room for the field, and a torus is no smaller than a table
/// that reaches `rc` cells. Walls keep the sides of a table apart on any lattice.
pub open spec fn has_room(h: int, w: int, rc: int, periodic: bool) -> bool {
    &&& field_fits(h, w, rc, periodic)
    &&& periodic ==> side(rc) <= h && side(rc) <= w
}

/// A cell of the lattice on the torus that it is convolved on.
spec fn padded_place(w: int, rc: int, periodic: bool, c: int) -> int {
    let off = margin(rc, periodic);
    flat(padded(w, rc, periodic), c / w + off, c % w + off)
}

/// What lines and paint cast: where the arithmetic is exact, the potential on
/// every cell is the direct sum of what all cells add to it, each through the
/// table around itself.
pub proof fn law_spread_is_the_direct_sum<P: Physics>(
    p: P,
    val: spec_fn(P::Real) -> real,
    field: Seq<P::Real>,
    h: int,
    w: int,
    table: Seq<P::Real>,
    rc: int,
    periodic: bool,
    out: Seq<P::Real>,
    y: int,
    x: int,
)
    requires
        exact(p, val),
        rc >= 0,
        field.len() == h * w,
        has_room(h, w, rc, periodic),
        spread(p, field, h, w, table, rc, periodic, out),
        0 <= y < h,
        0 <= x < w,
    ensures
        val(out[flat(w, y, x)]) == tally(h * w, |c: int| share_of(val, field, h, w, table, rc, periodic, y, x, c)),
{
    let (z, src, ker, full) = choose|z: P::Real, src: Seq<P::Real>, ker: Seq<P::Real>, full: Seq<P::Real>| #[trigger]
        spread_by(p, field, h, w, table, rc, periodic, out, z, src, ker, full);
    let (fh, fw, off) = (padded(h, rc, periodic), padded(w, rc, periodic), margin(rc, periodic));
    assert(convolved(p, fh, fw, src, ker, full));
    lemma_convolved_exact(p, val, fh, fw, src, ker, full);
    let around = |c: int| val(src[c]) * val(ker[flat(fw, (y + off - c / fw) % fh, (x + off - c % fw) % fw)]);
    assert(val(out[flat(w, y, x)]) == tally(fh * fw, around)) by {
        assert(out[flat(w, y, x)] == full[flat(fw, y + off, x + off)]);
        lemma_tally_same(
            fh * fw,
            |c: int| val(src[c]) * val(ker[flat(fw, (y + off - c / fw) % fh, (x + off - c % fw) % fw)]),
            around,
        );
    }
    let good = |c: int| true;
    let e = |c: int| padded_place(w, rc, periodic, c);
    let direct = |c: int| share_of(val, field, h, w, table, rc, periodic, y, x, c);
    assert forall|c: int| 0 <= c < h * w && good(c) implies 0 <= #[trigger] e(c) < fh * fw by {
        lemma_flat_inverse(h, w, c);
        lemma_flat_bound(fh, fw, c / w + off, c % w + off);
    }
    assert forall|c: int, d: int| 0 <= c < d < h * w && good(c) && good(d) implies #[trigger] e(c) != #[trigger] e(d) by {
        lemma_flat_inverse(h, w, c);
        lemma_flat_inverse(h, w, d);
        if e(c) == e(d) {
            lemma_flat_injective(fw, c / w + off, c % w + off, d / w + off, d % w + off);
        }
    }
    assert forall|c: int| #![trigger direct(c)] 0 <= c < h * w implies direct(c) == (if good(c) {
        around(e(c))
    } else {
        0 as real
    }) by {
        lemma_share_is_around(p, val, field, h, w, table, rc, periodic, z, src, ker, y, x, c);
    }
    assert forall|k: int| #![trigger around(k)] 0 <= k < fh * fw implies around(k) == (if hits(h * w, good, e, k) {
        around(k)
    } else {
        0 as real
    }) by {
        if !hits(h * w, good, e, k) {
            lemma_flat_inverse(fh, fw, k);
            let (v, u) = (k / fw - off, k % fw - off);
            if 0 <= v < h && 0 <= u < w {
                lemma_flat_bound(h, w, v, u);
                lemma_flat_parts(w, v, u);
                assert(e(flat(w, v, u)) == k);
            }
            assert(src[flat(fw, k / fw, k % fw)] == z);
            let b = val(ker[flat(fw, (y + off - k / fw) % fh, (x + off - k % fw) % fw)]);
            assert(0 as real * b == 0 as real) by (nonlinear_arith);
        }
    }
    lemma_tally_places(h * w, fh * fw, good, e, around, direct, around);
    lemma_tally_same(h * w, |c: int| share_of(val, field, h, w, table, rc, periodic, y, x, c), direct);
}

/// What a cell adds is what it adds around the torus.
proof fn lemma_share_is_around<P: Physics>(
    p: P,
    val: spec_fn(P::Real) -> real,
    field: Seq<P::Real>,
    h: int,
    w: int,
    table: Seq<P::Real>,
    rc: int,
    periodic: bool,
    z: P::Real,
    src: Seq<P::Real>,
    ker: Seq<P::Real>,
    y: int,
    x: int,
    c: int,
)
    requires
        exact(p, val),
        rc >= 0,
        has_room(h, w, rc, periodic),
        call_ensures(P::zero, (&p,), z),
        embedded(
            field,
            h,
            w,
            margin(rc, periodic),
            padded(h, rc, periodic),
            padded(w, rc, periodic),
            z,
            src,
        ),
        wrapped(table, rc, padded(h, rc, periodic), padded(w, rc, periodic), z, ker),
        0 <= y < h,
        0 <= x < w,
        0 <= c < h * w,
    ensures
        ({
            let (fh, fw, off) = (padded(h, rc, periodic), padded(w, rc, periodic), margin(rc, periodic));
            let k = padded_place(w, rc, periodic, c);
            share_of(val, field, h, w, table, rc, periodic, y, x, c) == val(src[k]) * val(
                ker[flat(fw, (y + off - k / fw) % fh, (x + off - k % fw) % fw)],
            )
        }),
{
    let (fh, fw, off) = (padded(h, rc, periodic), padded(w, rc, periodic), margin(rc, periodic));
    let k = padded_place(w, rc, periodic, c);
    lemma_flat_inverse(h, w, c);
    let (v, u) = (c / w, c % w);
    lemma_flat_parts(fw, v + off, u + off);
    assert(src[flat(fw, v + off, u + off)] == field[flat(w, v, u)]);
    assert((y + off) - (v + off) == y - v && (x + off) - (u + off) == x - u);
    let (dy, dx) = ((y - v) % fh, (x - u) % fw);
    assert(ker[flat(fw, dy, dx)] == wrapped_at(table, rc, fh, fw, z, dy, dx));
    if periodic {
        law_torus_keeps_table_apart(table, rc, h, w, z, y, x, v, u);
    } else {
        law_walls_keep_tables_apart(table, rc, h, w, z, y, x, v, u);
    }
}

/// What a field reads in the cell `(y, x)`, nothing outside.
pub open spec fn reads<R>(val: spec_fn(R) -> real, field: Seq<R>, h: int, w: int, y: int, x: int) -> real {
    if 0 <= y < h && 0 <= x < w {
        val(field[flat(w, y, x)])
    } else {
        0 as real
    }
}

/// What a stroke casts: where the arithmetic is exact, a full convolution is the
/// direct sum of the products of cells whose steps add up.
pub proof fn law_full_convolution_is_the_direct_sum<P: Physics>(
    p: P,
    val: spec_fn(P::Real) -> real,
    a: Seq<P::Real>,
    ah: int,
    aw: int,
    b: Seq<P::Real>,
    bh: int,
    bw: int,
    out: Seq<P::Real>,
    y: int,
    x: int,
)
    requires
        exact(p, val),
        full_fits(ah, aw, bh, bw),
        spread_full(p, a, ah, aw, b, bh, bw, out),
        0 <= y < ah + bh - 1,
        0 <= x < aw + bw - 1,
    ensures
        val(out[flat(aw + bw - 1, y, x)]) == tally(
            ah * aw,
            |c: int| val(a[c]) * reads(val, b, bh, bw, y - c / aw, x - c % aw),
        ),
{
    let (z, pa, pb, full) = choose|z: P::Real, pa: Seq<P::Real>, pb: Seq<P::Real>, full: Seq<P::Real>| #[trigger]
        spread_full_by(p, a, ah, aw, b, bh, bw, out, z, pa, pb, full);
    let (fh, fw) = (ceil_pow2(ah + bh - 1), ceil_pow2(aw + bw - 1));
    lemma_ceil_pow2(ah + bh - 1);
    lemma_ceil_pow2(aw + bw - 1);
    assert(convolved(p, fh, fw, pa, pb, full));
    lemma_convolved_exact(p, val, fh, fw, pa, pb, full);
    let around = |c: int| val(pa[c]) * val(pb[flat(fw, (y - c / fw) % fh, (x - c % fw) % fw)]);
    assert(val(out[flat(aw + bw - 1, y, x)]) == tally(fh * fw, around)) by {
        assert(out[flat(aw + bw - 1, y, x)] == full[flat(fw, y + 0, x + 0)]);
        lemma_tally_same(fh * fw, |c: int| val(pa[c]) * val(pb[flat(fw, (y - c / fw) % fh, (x - c % fw) % fw)]), around);
    }
    let good = |c: int| true;
    let e = |c: int| flat(fw, c / aw, c % aw);
    let direct = |c: int| val(a[c]) * reads(val, b, bh, bw, y - c / aw, x - c % aw);
    assert forall|c: int| 0 <= c < ah * aw && good(c) implies 0 <= #[trigger] e(c) < fh * fw by {
        lemma_flat_inverse(ah, aw, c);
        lemma_flat_bound(fh, fw, c / aw, c % aw);
    }
    assert forall|c: int, d: int| 0 <= c < d < ah * aw && good(c) && good(d) implies #[trigger] e(c) != #[trigger] e(d) by {
        lemma_flat_inverse(ah, aw, c);
        lemma_flat_inverse(ah, aw, d);
        if e(c) == e(d) {
            lemma_flat_injective(fw, c / aw, c % aw, d / aw, d % aw);
        }
    }
    assert forall|c: int| #![trigger direct(c)] 0 <= c < ah * aw implies direct(c) == (if good(c) {
        around(e(c))
    } else {
        0 as real
    }) by {
        lemma_flat_inverse(ah, aw, c);
        let (v, u) = (c / aw, c % aw);
        lemma_flat_parts(fw, v, u);
        assert(pa[flat(fw, v, u)] == a[flat(aw, v - 0, u - 0)]);
        lemma_short_of_a_turn(y - v, bh, ah, fh);
        lemma_short_of_a_turn(x - u, bw, aw, fw);
        let (dy, dx) = ((y - v) % fh, (x - u) % fw);
        assert(pb[flat(fw, dy, dx)] == (if 0 <= dy < 0 + bh && 0 <= dx < 0 + bw {
            b[flat(bw, dy - 0, dx - 0)]
        } else {
            z
        }));
    }
    assert forall|k: int| #![trigger around(k)] 0 <= k < fh * fw implies around(k) == (if hits(ah * aw, good, e, k) {
        around(k)
    } else {
        0 as real
    }) by {
        if !hits(ah * aw, good, e, k) {
            lemma_flat_inverse(fh, fw, k);
            let (v, u) = (k / fw, k % fw);
            if 0 <= v < ah && 0 <= u < aw {
                lemma_flat_bound(ah, aw, v, u);
                lemma_flat_parts(aw, v, u);
                assert(e(flat(aw, v, u)) == k);
            }
            assert(pa[flat(fw, v, u)] == z);
            lemma_one_or_none(val(pb[flat(fw, (y - v) % fh, (x - u) % fw)]));
        }
    }
    lemma_tally_places(ah * aw, fh * fw, good, e, around, direct, around);
    lemma_tally_same(ah * aw, |c: int| val(a[c]) * reads(val, b, bh, bw, y - c / aw, x - c % aw), direct);
}

/// A step back comes round no nearer than the end of what is laid at the start.
proof fn lemma_short_of_a_turn(d: int, bn: int, an: int, n: int)
    requires
        -an < d < an + bn - 1 <= n,
        bn >= 1,
        an >= 1,
    ensures
        0 <= d % n < bn <==> 0 <= d < bn,
        0 <= d < bn ==> d % n == d,
        0 <= d % n < n,
{
    if d >= 0 {
        vstd::arithmetic::div_mod::lemma_small_mod(d as nat, n as nat);
    } else {
        vstd::arithmetic::div_mod::lemma_mod_multiples_vanish(1, d, n);
        assert(n * 1 + d == d + n);
        vstd::arithmetic::div_mod::lemma_small_mod((d + n) as nat, n as nat);
    }
}

/// How charges on `s` and `t` read to act on each other.
pub open spec fn pull<R>(val: spec_fn(R) -> real, lay: Layout<R>, s: Site, t: Site) -> real {
    entry(
        val,
        lay.kernel,
        lay.rc as int,
        gap(s.0 as int, t.0 as int, lay.params.h as int, lay.params.periodic),
        gap(s.1 as int, t.1 as int, lay.params.w as int, lay.params.periodic),
    )
}

/// The interaction of charges on `sites`, over all ordered pairs of them.
pub open spec fn crowd<R>(val: spec_fn(R) -> real, lay: Layout<R>, sites: Seq<Site>) -> real {
    tally(sites.len() as int, |k: int| tally(sites.len() as int, |l: int| pull(val, lay, sites[k], sites[l])))
}

/// The fixed potential under charges on `sites`.
pub open spec fn held<R>(val: spec_fn(R) -> real, lay: Layout<R>, sites: Seq<Site>) -> real {
    tally(sites.len() as int, |k: int| val(lay.u_edge[lay.board().at(sites[k])]))
}

/// The energy of a gas laid out so: of each pair of its particles, and of each
/// particle in the fixed potential.
pub open spec fn energy<R>(val: spec_fn(R) -> real, lay: Layout<R>) -> real {
    let q = val(lay.params.charge);
    q * q * (crowd(val, lay, lay.pos) / 2 as real) + q * held(val, lay, lay.pos)
}

/// A sum over the lit cells is a sum over the particles.
pub proof fn lemma_lit_cells(b: Board, g: spec_fn(int) -> real, by_cell: spec_fn(int) -> real, by_particle: spec_fn(int) -> real)
    requires
        b.wf(),
        forall|c: int|
            #![trigger by_cell(c)]
            0 <= c < b.h * b.w ==> by_cell(c) == (if b.occ[c] {
                g(c)
            } else {
                0 as real
            }),
        forall|k: int| #![trigger by_particle(k)] 0 <= k < b.pos.len() ==> by_particle(k) == g(b.at(b.pos[k])),
    ensures
        tally(b.h * b.w, by_cell) == tally(b.pos.len() as int, by_particle),
{
    let n = b.pos.len() as int;
    let good = |k: int| true;
    let e = |k: int| b.at(b.pos[k]);
    assert forall|k: int| 0 <= k < n && good(k) implies 0 <= #[trigger] e(k) < b.h * b.w by {
        let s = b.pos[k];
        assert(b.on_board(s));
        lemma_flat_bound(b.h, b.w, s.0 as int, s.1 as int);
    }
    assert forall|k: int, l: int| 0 <= k < l < n && good(k) && good(l) implies #[trigger] e(k) != #[trigger] e(l) by {
        let (s, t) = (b.pos[k], b.pos[l]);
        assert(b.on_board(s) && b.on_board(t));
        if e(k) == e(l) {
            lemma_flat_injective(b.w, s.0 as int, s.1 as int, t.0 as int, t.1 as int);
        }
    }
    assert forall|c: int| 0 <= c < b.h * b.w implies b.occ[c] == #[trigger] hits(n, good, e, c) by {
        lemma_flat_inverse(b.h, b.w, c);
        let s = ((c / b.w) as i32, (c % b.w) as i32);
        assert(b.on_board(s) && b.at(s) == c);
        if b.occ[c] {
            assert(b.lit(s));
            let k = choose|k: int| 0 <= k < n && b.pos[k] == s;
            assert(e(k) == c);
        }
        if hits(n, good, e, c) {
            let k = choose|k: int| 0 <= k < n && good(k) && #[trigger] e(k) == c;
            assert(b.lit(b.pos[k]));
        }
    }
    assert forall|c: int| #![trigger by_cell(c)] 0 <= c < b.h * b.w implies by_cell(c) == (if hits(n, good, e, c) {
        g(c)
    } else {
        0 as real
    }) by {
        assert(b.occ[c] == hits(n, good, e, c));
    }
    lemma_tally_places(n, b.h * b.w, good, e, g, by_particle, by_cell);
}

/// The interaction of a charge in cell `c` with the particles.
spec fn felt_in<R>(val: spec_fn(R) -> real, lay: Layout<R>, c: int) -> real {
    let s = ((c / lay.params.w as int) as i32, (c % lay.params.w as int) as i32);
    tally(lay.pos.len() as int, |l: int| pull(val, lay, s, lay.pos[l]))
}

/// Where the arithmetic is exact, the energy worked out from the spectrum is
/// that of the particles, pair by pair.
pub proof fn law_total_energy_is_that_of_the_pairs<P: Physics>(p: P, val: spec_fn(P::Real) -> real, lay: Layout<P::Real>, e: P::Real)
    requires
        exact(p, val),
        lay.board().wf(),
        has_room(lay.params.h as int, lay.params.w as int, lay.rc as int, lay.params.periodic),
        totals(p, lay, e),
    ensures
        val(e) == energy(val, lay),
{
    let (field, conv, e_mm, e_edge) = choose|field: Seq<P::Real>, conv: Seq<P::Real>, e_mm: P::Real, e_edge: P::Real| #[trigger]
        totals_by(p, lay, e, field, conv, e_mm, e_edge);
    let b = lay.board();
    let n = lay.pos.len() as int;
    let cells = b.h * b.w;
    assert(val(e_edge) == held(val, lay, lay.pos)) by {
        let parts = choose|parts: Seq<P::Real>| #[trigger]
            summed(p, parts, e_edge) && parts.len() == field.len() && (forall|i: int|
                0 <= i < field.len() ==> call_ensures(P::times, (&p, field[i], lay.u_edge[i]), #[trigger] parts[i]));
        lemma_summed_exact(p, val, parts, e_edge);
        let by_cell = |i: int| val(parts[i]);
        let g = |c: int| val(lay.u_edge[c]);
        let by_particle = |k: int| val(lay.u_edge[lay.board().at(lay.pos[k])]);
        assert forall|c: int| #![trigger by_cell(c)] 0 <= c < cells implies by_cell(c) == (if b.occ[c] {
            g(c)
        } else {
            0 as real
        }) by {
            assert(val(parts[c]) == val(field[c]) * val(lay.u_edge[c]));
            lemma_one_or_none(val(lay.u_edge[c]));
        }
        lemma_lit_cells(b, g, by_cell, by_particle);
    }
    assert(val(e_mm) == crowd(val, lay, lay.pos)) by {
        let parts = choose|parts: Seq<P::Real>| #[trigger]
            summed(p, parts, e_mm) && parts.len() == field.len() && (forall|i: int|
                0 <= i < field.len() ==> call_ensures(P::times, (&p, field[i], conv[i]), #[trigger] parts[i]));
        lemma_summed_exact(p, val, parts, e_mm);
        let by_cell = |i: int| val(parts[i]);
        let g = |c: int| felt_in(val, lay, c);
        let by_particle = |k: int| tally(n, |l: int| pull(val, lay, lay.pos[k], lay.pos[l]));
        assert forall|c: int| #![trigger by_cell(c)] 0 <= c < cells implies by_cell(c) == (if b.occ[c] {
            g(c)
        } else {
            0 as real
        }) by {
            assert(val(parts[c]) == val(field[c]) * val(conv[c]));
            lemma_conv_is_felt(p, val, lay, field, conv, c);
            lemma_one_or_none(val(conv[c]));
        }
        assert forall|k: int| #![trigger by_particle(k)] 0 <= k < n implies by_particle(k) == g(b.at(b.pos[k])) by {
            let s = b.pos[k];
            assert(b.on_board(s));
            lemma_flat_parts(b.w, s.0 as int, s.1 as int);
        }
        lemma_lit_cells(b, g, by_cell, by_particle);
    }
    lemma_total_exact(p, val, lay.params.charge, e_mm, e_edge, e);
}

/// The energy put together from its parts.
pub proof fn lemma_total_exact<P: Physics>(
    p: P,
    val: spec_fn(P::Real) -> real,
    charge: P::Real,
    e_mm: P::Real,
    e_edge: P::Real,
    e: P::Real,
)
    requires
        exact(p, val),
        total_is(p, charge, e_mm, e_edge, e),
    ensures
        val(e) == val(charge) * val(charge) * (val(e_mm) / 2 as real) + val(charge) * val(e_edge),
{
    let (half, part, square) = choose|half: P::Real, part: P::Real, square: P::Real| #[trigger]
        total_by(p, charge, e_mm, e_edge, e, half, part, square);
    let (a, c) = choose|a: P::Real, c: P::Real| #[trigger]
        call_ensures(P::plus, (&p, a, c), e) && call_ensures(P::times, (&p, square, e_mm), a) && call_ensures(
            P::times,
            (&p, charge, e_edge),
            c,
        );
    let (q, hf, x) = (val(charge), val(half), val(e_mm));
    assert(hf * q * q * x == q * q * (x / 2 as real)) by (nonlinear_arith)
        requires
            hf + hf == 1 as real,
    ;
}

proof fn lemma_one_or_none(v: real)
    ensures
        1 as real * v == v,
        0 as real * v == 0 as real,
{
    assert(1 as real * v == v && 0 as real * v == 0 as real) by (nonlinear_arith);
}

/// What is cast on a cell is what the particles make felt there.
proof fn lemma_conv_is_felt<P: Physics>(
    p: P,
    val: spec_fn(P::Real) -> real,
    lay: Layout<P::Real>,
    field: Seq<P::Real>,
    conv: Seq<P::Real>,
    c: int,
)
    requires
        exact(p, val),
        lay.board().wf(),
        has_room(lay.params.h as int, lay.params.w as int, lay.rc as int, lay.params.periodic),
        charged(p, lay.occ, field),
        spread(p, field, lay.params.h as int, lay.params.w as int, lay.kernel, lay.rc as int, lay.params.periodic, conv),
        0 <= c < lay.params.h * lay.params.w,
    ensures
        val(conv[c]) == felt_in(val, lay, c),
{
    let b = lay.board();
    let (h, w, rc, periodic) = (b.h, b.w, lay.rc as int, lay.params.periodic);
    lemma_flat_inverse(h, w, c);
    let (y, x) = (c / w, c % w);
    let s = (y as i32, x as i32);
    law_spread_is_the_direct_sum(p, val, field, h, w, lay.kernel, rc, periodic, conv, y, x);
    let by_cell = |d: int| share_of(val, field, h, w, lay.kernel, rc, periodic, y, x, d);
    let g = |d: int| entry(val, lay.kernel, rc, gap(y, d / w, h, periodic), gap(x, d % w, w, periodic));
    let by_particle = |l: int| pull(val, lay, s, lay.pos[l]);
    assert forall|d: int| #![trigger by_cell(d)] 0 <= d < h * w implies by_cell(d) == (if b.occ[d] {
        g(d)
    } else {
        0 as real
    }) by {
        lemma_one_or_none(g(d));
        assert(val(field[d]) == if b.occ[d] { 1 as real } else { 0 as real });
    }
    assert forall|l: int| #![trigger by_particle(l)] 0 <= l < b.pos.len() implies by_particle(l) == g(b.at(b.pos[l])) by {
        let t = lay.pos[l];
        assert(b.on_board(t));
        lemma_flat_parts(w, t.0 as int, t.1 as int);
    }
    lemma_lit_cells(b, g, by_cell, by_particle);
}

} // verus!

//! What the sign of a brush means.

use crate::convolve::{field_fits, full_fits, margin, padded, spread, spread_by, spread_full};
use crate::exact::{
    exact, law_full_convolution_is_the_direct_sum, lemma_convolved_exact, lemma_summed_exact, lemma_total_exact, reads,
};
use crate::fold::{folded, lemma_folded_same};
use crate::formulas::{
    alpha_by, alpha_is, amplitude_by, amplitude_is, castings_settled, cover_is, lemma_casting_settled, norm_by,
};
use crate::kernel::{by_casting, radial, ring, side};
use crate::lattice::{flat, lemma_flat_bound, lemma_flat_inverse};
use crate::paint::{
    blank_report, cast_afresh, cast_fits, cast_from, closed, closed_by, covered, covered_by, hits, hits_wide, laid_down,
    laid_down_by, lays, on_lit, or_step, paints, repotentialed, repotentialed_by, worth,
};
use crate::patch::{ends, merged, placed, starts, Laid};
use crate::physics::{plus_step, summed, Brush, PaintReport, Physics};
use crate::repeat::{all_settled, lemma_dotted_settled, lemma_spread_settled};
use crate::scene::{charged, dotted, totals, totals_by};
use crate::sim::{Layout, Sim};
use crate::stroke::{
    along, brushed, cell_above, cell_below, cell_inked, columns_of, greater_step, inked, inked_by, inked_within, leg, leg_by,
    lesser_step, outlined, patched, rows_of, stamped, stamped_in_turn, window, window_by, Extent, Sample,
    StrokePatch, TooLarge,
};
use crate::tally::tally;
use crate::terms::reach_is;
use vstd::prelude::*;

verus! {

/// Every operation that a stroke of a brush calls on has one outcome.
pub open spec fn strokes_settled<P: Physics>(p: P) -> bool {
    &&& castings_settled(p)
    &&& forall|a: P::Real, b: P::Real, r: P::Real, s: P::Real| #[trigger]
        call_ensures(P::greater, (&p, a, b), r) && #[trigger] call_ensures(P::greater, (&p, a, b), s) ==> r == s
    &&& forall|a: P::Real, b: P::Real, r: P::Real, s: P::Real| #[trigger]
        call_ensures(P::lesser, (&p, a, b), r) && #[trigger] call_ensures(P::lesser, (&p, a, b), s) ==> r == s
    &&& forall|r: P::Real, s: P::Real| #[trigger]
        call_ensures(P::spacing, (&p,), r) && #[trigger] call_ensures(P::spacing, (&p,), s) ==> r == s
    &&& forall|r: P::Real, s: P::Real| #[trigger]
        call_ensures(P::speck, (&p,), r) && #[trigger] call_ensures(P::speck, (&p,), s) ==> r == s
    &&& forall|r: P::Real, s: P::Real| #[trigger]
        call_ensures(P::highest, (&p,), r) && #[trigger] call_ensures(P::highest, (&p,), s) ==> r == s
    &&& forall|r: P::Real, s: P::Real| #[trigger]
        call_ensures(P::lowest, (&p,), r) && #[trigger] call_ensures(P::lowest, (&p,), s) ==> r == s
    &&& forall|v: P::Real, r: i64, s: i64| #[trigger]
        call_ensures(P::floor, (&p, v), r) && #[trigger] call_ensures(P::floor, (&p, v), s) ==> r == s
    &&& forall|v: P::Real, r: i64, s: i64| #[trigger]
        call_ensures(P::ceil, (&p, v), r) && #[trigger] call_ensures(P::ceil, (&p, v), s) ==> r == s
    &&& forall|a: [P::Real; 2], b: [P::Real; 2], r: P::Real, s: P::Real| #[trigger]
        call_ensures(P::way, (&p, a, b), r) && #[trigger] call_ensures(P::way, (&p, a, b), s) ==> r == s
    &&& forall|v: P::Real, m: usize, r: P::Real, s: P::Real| #[trigger]
        call_ensures(P::share, (&p, v, m), r) && #[trigger] call_ensures(P::share, (&p, v, m), s) ==> r == s
    &&& forall|k: u64, m: u64, r: P::Real, s: P::Real| #[trigger]
        call_ensures(P::ratio, (&p, k, m), r) && #[trigger] call_ensures(P::ratio, (&p, k, m), s) ==> r == s
    &&& forall|y: i64, x: i64, at: [P::Real; 2], r: P::Real, s: P::Real| #[trigger]
        call_ensures(P::distance, (&p, y, x, at), r) && #[trigger] call_ensures(P::distance, (&p, y, x, at), s) ==> r == s
}

/// Arithmetic keeps signs apart: what is turned round in sign goes in, the same
/// comes out, turned round.
pub open spec fn odd<P: Physics>(p: P, val: spec_fn(P::Real) -> real) -> bool {
    &&& forall|r: P::Real| #[trigger] call_ensures(P::zero, (&p,), r) ==> val(r) == 0 as real
    &&& forall|a: P::Real, b: P::Real, c: P::Real, r: P::Real, s: P::Real| #[trigger]
        call_ensures(P::times, (&p, a, c), r) && #[trigger] call_ensures(P::times, (&p, b, c), s) && val(b) == -val(a) ==> val(s)
            == -val(r)
    &&& forall|a: P::Real, b: P::Real, c: P::Real, r: P::Real, s: P::Real| #[trigger]
        call_ensures(P::quotient, (&p, a, c), r) && #[trigger] call_ensures(P::quotient, (&p, b, c), s) && val(b) == -val(a)
            ==> val(s) == -val(r)
    &&& forall|a: P::Real, b: P::Real, c: P::Real, d: P::Real, r: P::Real, s: P::Real| #[trigger]
        call_ensures(P::plus, (&p, a, c), r) && #[trigger] call_ensures(P::plus, (&p, b, d), s) && val(b) == -val(a) && val(d)
            == -val(c) ==> val(s) == -val(r)
}

/// The one reads as the other, turned round in sign, place by place.
pub open spec fn opposed<R>(val: spec_fn(R) -> real, one: Seq<R>, two: Seq<R>) -> bool {
    &&& one.len() == two.len()
    &&& forall|i: int| #![trigger one[i]] #![trigger two[i]] 0 <= i < one.len() ==> val(two[i]) == -val(one[i])
}

/// The brushes differ in sign alone.
pub open spec fn opposite_brushes<R>(val: spec_fn(R) -> real, one: Brush<R>, two: Brush<R>) -> bool {
    &&& two == (Brush { sign: two.sign, ..one })
    &&& val(two.sign) == -val(one.sign)
}

proof fn lemma_leg_settled<P: Physics>(p: P, a: [P::Real; 2], b: [P::Real; 2], r: Seq<Sample<P::Real>>, s: Seq<Sample<P::Real>>)
    requires
        strokes_settled(p),
        leg(p, a, b, r),
        leg(p, a, b, s),
    ensures
        r == s,
{
    let (d1, s1, q1, c1, a1, e1) = choose|d: P::Real, s: P::Real, q: P::Real, c: i64, all: P::Real, dose: P::Real| #[trigger]
        leg_by(p, a, b, r, d, s, q, c, all, dose);
    let (d2, s2, q2, c2, a2, e2) = choose|d: P::Real, g: P::Real, q: P::Real, c: i64, all: P::Real, dose: P::Real| #[trigger]
        leg_by(p, a, b, s, d, g, q, c, all, dose);
    assert(d1 == d2 && s1 == s2);
    assert(q1 == q2 && a1 == a2);
    assert(c1 == c2);
    assert(e1 == e2);
    assert forall|k: int| 0 <= k < r.len() implies r[k] == s[k] by {
        assert(r[k].at[0] == s[k].at[0] && r[k].at[1] == s[k].at[1]);
        assert(r[k].at =~= s[k].at);
    }
    assert(r =~= s);
}

/// The stamps along a path are then the same.
pub proof fn lemma_along_settled<P: Physics>(
    p: P,
    points: Seq<[P::Real; 2]>,
    first: bool,
    n: nat,
    r: Seq<Sample<P::Real>>,
    s: Seq<Sample<P::Real>>,
)
    requires
        strokes_settled(p),
        along(p, points, first, n, r),
        along(p, points, first, n, s),
    ensures
        r == s,
    decreases n,
{
    if n == 0 || n == 1 && !first {
        assert(r =~= s);
    } else if n == 1 {
        assert(r[0] == s[0]);
        assert(r =~= s);
    } else {
        let k = choose|k: int|
            0 <= k <= r.len() && along(p, points, first, (n - 1) as nat, #[trigger] r.take(k)) && leg(
                p,
                points[n - 2],
                points[n - 1],
                r.skip(k),
            );
        let l = choose|k: int|
            0 <= k <= s.len() && along(p, points, first, (n - 1) as nat, #[trigger] s.take(k)) && leg(
                p,
                points[n - 2],
                points[n - 1],
                s.skip(k),
            );
        lemma_along_settled(p, points, first, (n - 1) as nat, r.take(k), s.take(l));
        lemma_leg_settled(p, points[n - 2], points[n - 1], r.skip(k), s.skip(l));
        assert(r.take(k).len() == k && s.take(l).len() == l);
        assert(r =~= r.take(k) + r.skip(k));
        assert(s =~= s.take(l) + s.skip(l));
    }
}

proof fn lemma_below_settled<P: Physics>(p: P, vs: Seq<P::Real>, r: i64, s: i64)
    requires
        strokes_settled(p),
        cell_below(p, vs, r),
        cell_below(p, vs, s),
    ensures
        r == s,
{
    let (a, l) = choose|start: P::Real, least: P::Real|
        call_ensures(P::highest, (&p,), start) && #[trigger] folded(lesser_step(p), start, vs, least) && call_ensures(
            P::floor,
            (&p, least),
            r,
        );
    let (b, m) = choose|start: P::Real, least: P::Real|
        call_ensures(P::highest, (&p,), start) && #[trigger] folded(lesser_step(p), start, vs, least) && call_ensures(
            P::floor,
            (&p, least),
            s,
        );
    assert(a == b);
    lemma_folded_same(lesser_step(p), a, vs, l, m);
}

proof fn lemma_above_settled<P: Physics>(p: P, vs: Seq<P::Real>, r: i64, s: i64)
    requires
        strokes_settled(p),
        cell_above(p, vs, r),
        cell_above(p, vs, s),
    ensures
        r == s,
{
    let (a, l) = choose|start: P::Real, most: P::Real|
        call_ensures(P::lowest, (&p,), start) && #[trigger] folded(greater_step(p), start, vs, most) && call_ensures(
            P::ceil,
            (&p, most),
            r,
        );
    let (b, m) = choose|start: P::Real, most: P::Real|
        call_ensures(P::lowest, (&p,), start) && #[trigger] folded(greater_step(p), start, vs, most) && call_ensures(
            P::ceil,
            (&p, most),
            s,
        );
    assert(a == b);
    lemma_folded_same(greater_step(p), a, vs, l, m);
}

proof fn lemma_outline_settled<P: Physics>(
    p: P,
    one: Brush<P::Real>,
    two: Brush<P::Real>,
    stamps: Seq<Sample<P::Real>>,
    r: P::Real,
    e: Extent,
    s: P::Real,
    f: Extent,
)
    requires
        strokes_settled(p),
        one.thickness == two.thickness,
        outlined(p, one, stamps, r, e),
        outlined(p, two, stamps, s, f),
    ensures
        r == s,
        e == f,
{
    lemma_below_settled(p, rows_of(stamps), e.top, f.top);
    lemma_above_settled(p, rows_of(stamps), e.bottom, f.bottom);
    lemma_below_settled(p, columns_of(stamps), e.left, f.left);
    lemma_above_settled(p, columns_of(stamps), e.right, f.right);
    assert(r == s);
}

proof fn lemma_alpha_settled<P: Physics>(p: P, d: P::Real, radius: P::Real, hardness: P::Real, r: P::Real, s: P::Real)
    requires
        castings_settled(p),
        alpha_is(p, d, radius, hardness, r),
        alpha_is(p, d, radius, hardness, s),
    ensures
        r == s,
{
    let (h1, i1, w1, o1, s1) = choose|hard: P::Real, inner: P::Real, within: bool, outside: bool, soft: bool| #[trigger]
        alpha_by(p, d, radius, hardness, r, hard, inner, within, outside, soft);
    let (h2, i2, w2, o2, s2) = choose|hard: P::Real, inner: P::Real, within: bool, outside: bool, soft: bool| #[trigger]
        alpha_by(p, d, radius, hardness, s, hard, inner, within, outside, soft);
    assert(h1 == h2);
    assert(i1 == i2);
    assert(w1 == w2 && o1 == o2 && s1 == s2);
}

proof fn lemma_amplitudes_opposed<P: Physics>(
    p: P,
    val: spec_fn(P::Real) -> real,
    one: Brush<P::Real>,
    two: Brush<P::Real>,
    radius: P::Real,
    r: P::Real,
    s: P::Real,
)
    requires
        strokes_settled(p),
        odd(p, val),
        opposite_brushes(val, one, two),
        amplitude_is(p, one, radius, r),
        amplitude_is(p, two, radius, s),
    ensures
        val(s) == -val(r),
{
    let (n1, a1, b1, c1) = choose|norm: P::Real, a: P::Real, b: P::Real, c: P::Real| #[trigger]
        amplitude_by(p, one, radius, r, norm, a, b, c);
    let (n2, a2, b2, c2) = choose|norm: P::Real, a: P::Real, b: P::Real, c: P::Real| #[trigger]
        amplitude_by(p, two, radius, s, norm, a, b, c);
    let (h1, o1, m1, p1, k1) = choose|hard: P::Real, one: P::Real, more: P::Real, plain: P::Real, speck: P::Real| #[trigger]
        norm_by(p, radius, two.hardness, n1, hard, one, more, plain, speck);
    let (h2, o2, m2, p2, k2) = choose|hard: P::Real, one: P::Real, more: P::Real, plain: P::Real, speck: P::Real| #[trigger]
        norm_by(p, radius, two.hardness, n2, hard, one, more, plain, speck);
    assert(h1 == h2 && o1 == o2 && k1 == k2);
    assert(m1 == m2);
    assert(p1 == p2);
    assert(n1 == n2);
    assert(val(a2) == -val(a1));
    assert(val(b2) == -val(b1));
    assert(val(c2) == -val(c1));
}

/// Stamps of opposite amplitudes ink a patch with opposite charges and the same
/// coverage.
proof fn lemma_stamp_opposed<P: Physics>(
    p: P,
    val: spec_fn(P::Real) -> real,
    e: Extent,
    radius: P::Real,
    hardness: P::Real,
    amp: P::Real,
    pma: P::Real,
    stamp: Sample<P::Real>,
    b1: (Seq<P::Real>, Seq<P::Real>),
    a1: (Seq<P::Real>, Seq<P::Real>),
    b2: (Seq<P::Real>, Seq<P::Real>),
    a2: (Seq<P::Real>, Seq<P::Real>),
)
    requires
        strokes_settled(p),
        odd(p, val),
        e.width() >= 0,
        val(pma) == -val(amp),
        stamped(p, e.y0(), e.x0(), e.height(), e.width(), radius, hardness, amp, stamp, b1, a1),
        stamped(p, e.y0(), e.x0(), e.height(), e.width(), radius, hardness, pma, stamp, b2, a2),
        b1.0.len() == e.height() * e.width(),
        opposed(val, b1.0, b2.0),
        b1.1 == b2.1,
    ensures
        a1.0.len() == e.height() * e.width(),
        opposed(val, a1.0, a2.0),
        a1.1 == a2.1,
{
    let (y0, x0, ph, pw) = (e.y0(), e.x0(), e.height(), e.width());
    let (ly, hy, lx, hx) = choose|ly: int, hy: int, lx: int, hx: int|
        #![trigger window(p, stamp.at[0], radius, y0, ph, ly, hy), window(p, stamp.at[1], radius, x0, pw, lx, hx)]
        window(p, stamp.at[0], radius, y0, ph, ly, hy) && window(p, stamp.at[1], radius, x0, pw, lx, hx) && inked_within(
            p,
            y0,
            x0,
            ph,
            pw,
            radius,
            hardness,
            amp,
            stamp,
            b1,
            a1,
            ly,
            hy,
            lx,
            hx,
        );
    let (my, iy, mx, ix) = choose|ly: int, hy: int, lx: int, hx: int|
        #![trigger window(p, stamp.at[0], radius, y0, ph, ly, hy), window(p, stamp.at[1], radius, x0, pw, lx, hx)]
        window(p, stamp.at[0], radius, y0, ph, ly, hy) && window(p, stamp.at[1], radius, x0, pw, lx, hx) && inked_within(
            p,
            y0,
            x0,
            ph,
            pw,
            radius,
            hardness,
            pma,
            stamp,
            b2,
            a2,
            ly,
            hy,
            lx,
            hx,
        );
    lemma_window_settled(p, stamp.at[0], radius, y0, ph, ly, hy, my, iy);
    lemma_window_settled(p, stamp.at[1], radius, x0, pw, lx, hx, mx, ix);
    assert forall|c: int|
        #![trigger a1.0[c]]
        #![trigger a2.0[c]]
        #![trigger a1.1[c]]
        0 <= c < ph * pw implies val(a2.0[c]) == -val(a1.0[c]) && a1.1[c] == a2.1[c] by {
        lemma_flat_inverse(ph, pw, c);
        let (y, x) = (c / pw, c % pw);
        assert(a1.0[flat(pw, y, x)] == a1.0[c] && a2.0[flat(pw, y, x)] == a2.0[c]);
        assert(val(b2.0[c]) == -val(b1.0[c]));
        if ly <= y < hy && lx <= x < hx {
            lemma_cell_opposed(
                p,
                val,
                y0 + y,
                x0 + x,
                radius,
                hardness,
                amp,
                pma,
                stamp,
                b1.0[c],
                b2.0[c],
                b1.1[c],
                a1.0[c],
                a1.1[c],
                a2.0[c],
                a2.1[c],
            );
        }
    }
    assert(a1.1 =~= a2.1);
}

proof fn lemma_window_settled<P: Physics>(
    p: P,
    centre: P::Real,
    radius: P::Real,
    at: int,
    n: int,
    lo: int,
    hi: int,
    lo2: int,
    hi2: int,
)
    requires
        strokes_settled(p),
        window(p, centre, radius, at, n, lo, hi),
        window(p, centre, radius, at, n, lo2, hi2),
    ensures
        lo == lo2,
        hi == hi2,
{
    let (n1, f1, a1, b1) = choose|near: P::Real, far: P::Real, a: i64, b: i64| #[trigger]
        window_by(p, centre, radius, at, n, lo, hi, near, far, a, b);
    let (n2, f2, a2, b2) = choose|near: P::Real, far: P::Real, a: i64, b: i64| #[trigger]
        window_by(p, centre, radius, at, n, lo2, hi2, near, far, a, b);
    assert(n1 == n2 && f1 == f2);
    assert(a1 == a2 && b1 == b2);
}

proof fn lemma_cell_opposed<P: Physics>(
    p: P,
    val: spec_fn(P::Real) -> real,
    y: int,
    x: int,
    radius: P::Real,
    hardness: P::Real,
    amp: P::Real,
    pma: P::Real,
    stamp: Sample<P::Real>,
    q1: P::Real,
    q2: P::Real,
    c0: P::Real,
    r1: P::Real,
    c1: P::Real,
    r2: P::Real,
    c2: P::Real,
)
    requires
        strokes_settled(p),
        odd(p, val),
        val(pma) == -val(amp),
        val(q2) == -val(q1),
        cell_inked(p, y, x, radius, hardness, amp, stamp, q1, c0, r1, c1),
        cell_inked(p, y, x, radius, hardness, pma, stamp, q2, c0, r2, c2),
    ensures
        val(r2) == -val(r1),
        c1 == c2,
{
    let a = choose|a: P::Real|
        cover_is(p, y, x, stamp.at, radius, hardness, a) && #[trigger] inked(p, amp, stamp.dose, a, q1, c0, r1, c1);
    let b = choose|a: P::Real|
        cover_is(p, y, x, stamp.at, radius, hardness, a) && #[trigger] inked(p, pma, stamp.dose, a, q2, c0, r2, c2);
    let d1 = choose|d: P::Real| #[trigger]
        alpha_is(p, d, radius, hardness, a) && call_ensures(P::distance, (&p, y as i64, x as i64, stamp.at), d);
    let d2 = choose|d: P::Real| #[trigger]
        alpha_is(p, d, radius, hardness, b) && call_ensures(P::distance, (&p, y as i64, x as i64, stamp.at), d);
    assert(d1 == d2);
    lemma_alpha_settled(p, d1, radius, hardness, a, b);
    let (s1, t1, m1) = choose|s: P::Real, t: P::Real, more: bool| #[trigger]
        inked_by(p, amp, stamp.dose, a, q1, c0, r1, c1, s, t, more);
    let (s2, t2, m2) = choose|s: P::Real, t: P::Real, more: bool| #[trigger]
        inked_by(p, pma, stamp.dose, a, q2, c0, r2, c2, s, t, more);
    assert(val(s2) == -val(s1));
    assert(val(t2) == -val(t1));
    assert(m1 == m2);
}

proof fn lemma_states_opposed<P: Physics>(
    p: P,
    val: spec_fn(P::Real) -> real,
    e: Extent,
    radius: P::Real,
    hardness: P::Real,
    amp: P::Real,
    pma: P::Real,
    stamps: Seq<Sample<P::Real>>,
    one: Seq<(Seq<P::Real>, Seq<P::Real>)>,
    two: Seq<(Seq<P::Real>, Seq<P::Real>)>,
    k: nat,
)
    requires
        strokes_settled(p),
        odd(p, val),
        e.width() >= 0,
        e.height() * e.width() >= 0,
        val(pma) == -val(amp),
        stamped_in_turn(p, e, radius, hardness, amp, stamps, one),
        stamped_in_turn(p, e, radius, hardness, pma, stamps, two),
        k <= stamps.len(),
    ensures
        one[k as int].0.len() == e.height() * e.width(),
        opposed(val, one[k as int].0, two[k as int].0),
        one[k as int].1 == two[k as int].1,
    decreases k,
{
    if k > 0 {
        lemma_states_opposed(p, val, e, radius, hardness, amp, pma, stamps, one, two, (k - 1) as nat);
        let j = k - 1;
        lemma_stamp_opposed(
            p,
            val,
            e,
            radius,
            hardness,
            amp,
            pma,
            stamps[j],
            one[j],
            one[j + 1],
            two[j],
            two[j + 1],
        );
    } else {
        let z = choose|z: P::Real| #[trigger]
            call_ensures(P::zero, (&p,), z) && one[0].0 == Seq::new((e.height() * e.width()) as nat, |c: int| z) && one[0].1 == one[0].0;
        let y = choose|z: P::Real| #[trigger]
            call_ensures(P::zero, (&p,), z) && two[0].0 == Seq::new((e.height() * e.width()) as nat, |c: int| z) && two[0].1 == two[0].0;
        assert(z == y);
    }
}

/// Patches hold opposite charges over the same cells, covered alike.
pub open spec fn opposite_patches<R>(val: spec_fn(R) -> real, one: StrokePatch<R>, two: StrokePatch<R>) -> bool {
    &&& one.y0 == two.y0
    &&& one.x0 == two.x0
    &&& one.ph == two.ph
    &&& one.pw == two.pw
    &&& one.cov@ == two.cov@
    &&& one.dq@.len() == one.ph * one.pw
    &&& opposed(val, one.dq@, two.dq@)
}

/// Brushes that differ in sign alone leave opposite charges over the same
/// cells, and cover them alike.
pub proof fn law_opposite_brushes_leave_opposite_charges<P: Physics>(
    p: P,
    val: spec_fn(P::Real) -> real,
    points: Seq<[P::Real; 2]>,
    one: Brush<P::Real>,
    two: Brush<P::Real>,
    first: bool,
    r: Result<Option<StrokePatch<P::Real>>, TooLarge>,
    s: Result<Option<StrokePatch<P::Real>>, TooLarge>,
)
    requires
        strokes_settled(p),
        odd(p, val),
        opposite_brushes(val, one, two),
        brushed(p, points, one, first, r),
        brushed(p, points, two, first, s),
    ensures
        match (r, s) {
            (Ok(Some(a)), Ok(Some(b))) => opposite_patches(val, a, b),
            (Ok(None), Ok(None)) => true,
            (Err(_), Err(_)) => true,
            _ => false,
        },
{
    let s1 = choose|stamps: Seq<Sample<P::Real>>| #[trigger]
        along(p, points, first, points.len(), stamps) && if stamps.len() == 0 {
            r == Ok::<Option<StrokePatch<P::Real>>, TooLarge>(None)
        } else {
            exists|radius: P::Real, e: Extent| #[trigger]
                outlined(p, one, stamps, radius, e) && match r {
                    Ok(Some(patch)) => e.fits() && patched(p, one, radius, e, stamps, patch),
                    Ok(None) => false,
                    Err(_) => !e.fits(),
                }
        };
    let s2 = choose|stamps: Seq<Sample<P::Real>>| #[trigger]
        along(p, points, first, points.len(), stamps) && if stamps.len() == 0 {
            s == Ok::<Option<StrokePatch<P::Real>>, TooLarge>(None)
        } else {
            exists|radius: P::Real, e: Extent| #[trigger]
                outlined(p, two, stamps, radius, e) && match s {
                    Ok(Some(patch)) => e.fits() && patched(p, two, radius, e, stamps, patch),
                    Ok(None) => false,
                    Err(_) => !e.fits(),
                }
        };
    lemma_along_settled(p, points, first, points.len(), s1, s2);
    if s1.len() > 0 {
        let (r1, e1) = choose|radius: P::Real, e: Extent| #[trigger]
            outlined(p, one, s1, radius, e) && match r {
                Ok(Some(patch)) => e.fits() && patched(p, one, radius, e, s1, patch),
                Ok(None) => false,
                Err(_) => !e.fits(),
            };
        let (r2, e2) = choose|radius: P::Real, e: Extent| #[trigger]
            outlined(p, two, s1, radius, e) && match s {
                Ok(Some(patch)) => e.fits() && patched(p, two, radius, e, s1, patch),
                Ok(None) => false,
                Err(_) => !e.fits(),
            };
        lemma_outline_settled(p, one, two, s1, r1, e1, r2, e2);
        if e1.fits() {
            let (a, b) = (r->Ok_0->Some_0, s->Ok_0->Some_0);
            lemma_patches_opposed(p, val, one, two, r1, e1, s1, a, b);
        }
    }
}

proof fn lemma_patches_opposed<P: Physics>(
    p: P,
    val: spec_fn(P::Real) -> real,
    one: Brush<P::Real>,
    two: Brush<P::Real>,
    radius: P::Real,
    e: Extent,
    stamps: Seq<Sample<P::Real>>,
    a: StrokePatch<P::Real>,
    b: StrokePatch<P::Real>,
)
    requires
        strokes_settled(p),
        odd(p, val),
        opposite_brushes(val, one, two),
        patched(p, one, radius, e, stamps, a),
        patched(p, two, radius, e, stamps, b),
    ensures
        opposite_patches(val, a, b),
{
    let (m1, t1) = choose|amp: P::Real, states: Seq<(Seq<P::Real>, Seq<P::Real>)>|
        amplitude_is(p, one, radius, amp) && #[trigger] stamped_in_turn(p, e, radius, one.hardness, amp, stamps, states)
            && states.last() == (a.dq@, a.cov@);
    let (m2, t2) = choose|amp: P::Real, states: Seq<(Seq<P::Real>, Seq<P::Real>)>|
        amplitude_is(p, two, radius, amp) && #[trigger] stamped_in_turn(p, e, radius, two.hardness, amp, stamps, states)
            && states.last() == (b.dq@, b.cov@);
    lemma_amplitudes_opposed(p, val, one, two, radius, m1, m2);
    assert(e.width() == a.pw && e.height() == a.ph);
    assert(a.ph * a.pw >= 0) by (nonlinear_arith)
        requires
            a.ph >= 0,
            a.pw >= 0,
    ;
    lemma_states_opposed(p, val, e, radius, one.hardness, m1, m2, stamps, t1, t2, stamps.len());
}

/// Opposite terms have opposite sums.
proof fn lemma_tally_opposed(n: int, f: spec_fn(int) -> real, g: spec_fn(int) -> real)
    requires
        forall|i: int| #![trigger g(i)] 0 <= i < n ==> g(i) == -f(i),
    ensures
        tally(n, g) == -tally(n, f),
    decreases n,
{
    if n > 0 {
        lemma_tally_opposed(n - 1, f, g);
        assert(g(n - 1) == -f(n - 1));
    }
}

proof fn lemma_sums_opposed<P: Physics>(
    p: P,
    val: spec_fn(P::Real) -> real,
    one: Seq<P::Real>,
    two: Seq<P::Real>,
    r: P::Real,
    s: P::Real,
)
    requires
        exact(p, val),
        opposed(val, one, two),
        summed(p, one, r),
        summed(p, two, s),
    ensures
        val(s) == -val(r),
{
    lemma_summed_exact(p, val, one, r);
    lemma_summed_exact(p, val, two, s);
    let (f, g) = (|i: int| val(one[i]), |i: int| val(two[i]));
    lemma_tally_opposed(one.len() as int, f, g);
}

/// Opposite charges cast opposite potentials.
proof fn lemma_casts_opposed<P: Physics>(
    p: P,
    val: spec_fn(P::Real) -> real,
    one: Seq<P::Real>,
    two: Seq<P::Real>,
    ph: int,
    pw: int,
    table: Seq<P::Real>,
    n: int,
    r: Seq<P::Real>,
    s: Seq<P::Real>,
)
    requires
        exact(p, val),
        full_fits(ph, pw, n, n),
        one.len() == ph * pw,
        opposed(val, one, two),
        spread_full(p, one, ph, pw, table, n, n, r),
        spread_full(p, two, ph, pw, table, n, n, s),
    ensures
        r.len() == (ph + n - 1) * (pw + n - 1),
        opposed(val, r, s),
{
    let (oh, ow) = (ph + n - 1, pw + n - 1);
    assert forall|c: int|
        #![trigger r[c]]
        #![trigger s[c]]
        0 <= c < oh * ow implies val(s[c]) == -val(r[c]) by {
        lemma_flat_inverse(oh, ow, c);
        let (y, x) = (c / ow, c % ow);
        law_full_convolution_is_the_direct_sum(p, val, one, ph, pw, table, n, n, r, y, x);
        law_full_convolution_is_the_direct_sum(p, val, two, ph, pw, table, n, n, s, y, x);
        let f = |c: int| val(one[c]) * reads(val, table, n, n, y - c / pw, x - c % pw);
        let g = |c: int| val(two[c]) * reads(val, table, n, n, y - c / pw, x - c % pw);
        assert forall|i: int| #![trigger g(i)] 0 <= i < ph * pw implies g(i) == -f(i) by {
            assert(val(two[i]) == -val(one[i]));
            let (v, k) = (val(one[i]), reads(val, table, n, n, y - i / pw, x - i % pw));
            assert((-v) * k == -(v * k)) by (nonlinear_arith);
        }
        lemma_tally_opposed(ph * pw, f, g);
    }
}

/// Patches hold opposite values over the same cells.
pub open spec fn laid_opposed<R>(val: spec_fn(R) -> real, one: Laid<R>, two: Laid<R>) -> bool {
    &&& one.rows@ == two.rows@
    &&& one.cols@ == two.cols@
    &&& opposed(val, one.cells@, two.cells@)
}

/// What is placed of a patch lies inside it.
proof fn lemma_inside(at: int, len: int, n: int, periodic: bool, i: int)
    requires
        0 <= i < ends(at, len, n, periodic) - starts(at, periodic),
    ensures
        0 <= starts(at, periodic) + i < len,
{
}

proof fn lemma_placed_alike<T>(
    src: Seq<T>,
    crs: Seq<T>,
    y0: int,
    x0: int,
    ph: int,
    pw: int,
    h: int,
    w: int,
    periodic: bool,
    one: Laid<T>,
    two: Laid<T>,
    k: int,
)
    requires
        placed(src, y0, x0, ph, pw, h, w, periodic, one),
        placed(crs, y0, x0, ph, pw, h, w, periodic, two),
        0 <= k < one.cells@.len(),
    ensures
        exists|c: int| 0 <= c < ph * pw && one.cells@[k] == src[c] && two.cells@[k] == crs[c],
{
    let (rows, cols) = (one.rows@.len() as int, one.cols@.len() as int);
    lemma_flat_inverse(rows, cols, k);
    let (i, j) = (k / cols, k % cols);
    lemma_inside(y0, ph, h, periodic, i);
    lemma_inside(x0, pw, w, periodic, j);
    let (sy, sx) = (starts(y0, periodic), starts(x0, periodic));
    lemma_flat_bound(ph, pw, sy + i, sx + j);
    assert(one.has(i, j) && two.has(i, j));
    let c = flat(pw, sy + i, sx + j);
    assert(one.at(i, j) == one.cells@[k] && two.at(i, j) == two.cells@[k]);
    assert(one.cells@[k] == src[c] && two.cells@[k] == crs[c]);
}

proof fn lemma_placed_lines<T>(
    src: Seq<T>,
    crs: Seq<T>,
    y0: int,
    x0: int,
    ph: int,
    pw: int,
    h: int,
    w: int,
    periodic: bool,
    one: Laid<T>,
    two: Laid<T>,
)
    requires
        placed(src, y0, x0, ph, pw, h, w, periodic, one),
        placed(crs, y0, x0, ph, pw, h, w, periodic, two),
    ensures
        one.rows@ == two.rows@,
        one.cols@ == two.cols@,
        one.cells@.len() == two.cells@.len(),
{
    assert forall|i: int| 0 <= i < one.rows@.len() implies one.rows@[i] == two.rows@[i] by {}
    assert forall|j: int| 0 <= j < one.cols@.len() implies one.cols@[j] == two.cols@[j] by {}
    assert(one.rows@ =~= two.rows@);
    assert(one.cols@ =~= two.cols@);
}

proof fn lemma_placed_opposed<R>(
    val: spec_fn(R) -> real,
    src: Seq<R>,
    crs: Seq<R>,
    y0: int,
    x0: int,
    ph: int,
    pw: int,
    h: int,
    w: int,
    periodic: bool,
    one: Laid<R>,
    two: Laid<R>,
)
    requires
        placed(src, y0, x0, ph, pw, h, w, periodic, one),
        placed(crs, y0, x0, ph, pw, h, w, periodic, two),
        src.len() == ph * pw,
        opposed(val, src, crs),
    ensures
        laid_opposed(val, one, two),
{
    lemma_placed_lines(src, crs, y0, x0, ph, pw, h, w, periodic, one, two);
    assert forall|k: int|
        #![trigger one.cells@[k]]
        #![trigger two.cells@[k]]
        0 <= k < one.cells@.len() implies val(two.cells@[k]) == -val(one.cells@[k]) by {
        lemma_placed_alike(src, crs, y0, x0, ph, pw, h, w, periodic, one, two, k);
    }
}

/// Taking up opposite patches changes every cell by the opposite.
proof fn lemma_merged_opposed<P: Physics>(
    p: P,
    val: spec_fn(P::Real) -> real,
    w: int,
    one: Laid<P::Real>,
    two: Laid<P::Real>,
    before: Seq<P::Real>,
    r: Seq<P::Real>,
    s: Seq<P::Real>,
)
    requires
        exact(p, val),
        one.cells@.len() == one.rows@.len() * one.cols@.len(),
        laid_opposed(val, one, two),
        merged(plus_step(p), w, one, before, r),
        merged(plus_step(p), w, two, before, s),
    ensures
        opposite_changes(val, before, r, s),
{
    assert forall|c: int|
        #![trigger r[c]]
        #![trigger s[c]]
        0 <= c < before.len() implies val(s[c]) - val(before[c]) == -(val(r[c]) - val(before[c])) by {
        if one.covers(w, c) {
            let (i, j) = choose|i: int, j: int| #[trigger] one.has(i, j) && one.under(w, i, j) == c;
            assert(two.has(i, j) && two.under(w, i, j) == c);
            assert(plus_step(p)(before[c], one.at(i, j), r[c]));
            assert(plus_step(p)(before[c], two.at(i, j), s[c]));
            let cols = one.cols@.len() as int;
            lemma_flat_bound(one.rows@.len() as int, cols, i, j);
            assert(val(two.at(i, j)) == -val(one.at(i, j)));
        } else {
            if two.covers(w, c) {
                let (i, j) = choose|i: int, j: int| #[trigger] two.has(i, j) && two.under(w, i, j) == c;
                assert(one.has(i, j) && one.under(w, i, j) == c);
            }
        }
    }
}

/// From `before`, the values change to `r` and to `s` by opposite amounts.
pub open spec fn opposite_changes<R>(val: spec_fn(R) -> real, before: Seq<R>, r: Seq<R>, s: Seq<R>) -> bool {
    &&& r.len() == before.len()
    &&& s.len() == before.len()
    &&& forall|c: int|
        #![trigger r[c]]
        #![trigger s[c]]
        0 <= c < before.len() ==> val(s[c]) - val(before[c]) == -(val(r[c]) - val(before[c]))
}

proof fn lemma_on_lit_opposed<R>(val: spec_fn(R) -> real, one: Laid<R>, two: Laid<R>, w: int, occ: Seq<bool>, n: nat)
    requires
        laid_opposed(val, one, two),
        n <= one.cells@.len(),
    ensures
        opposed(val, on_lit(one, w, occ, n), on_lit(two, w, occ, n)),
    decreases n,
{
    if n > 0 {
        lemma_on_lit_opposed(val, one, two, w, occ, (n - 1) as nat);
        assert(val(two.cells@[n - 1]) == -val(one.cells@[n - 1]));
    }
}

/// Opposite changes of the potential are worth the opposite.
proof fn lemma_worth_opposed<P: Physics>(
    p: P,
    val: spec_fn(P::Real) -> real,
    lay: Layout<P::Real>,
    one: Laid<P::Real>,
    two: Laid<P::Real>,
    r: P::Real,
    s: P::Real,
)
    requires
        exact(p, val),
        laid_opposed(val, one, two),
        worth(p, lay, one, r),
        worth(p, lay, two, s),
    ensures
        val(s) == -val(r),
{
    let w = lay.params.w as int;
    let (u1, u2) = (on_lit(one, w, lay.occ, one.cells@.len()), on_lit(two, w, lay.occ, two.cells@.len()));
    lemma_on_lit_opposed(val, one, two, w, lay.occ, one.cells@.len());
    let p1 = choose|parts: Seq<P::Real>| #[trigger]
        summed(p, parts, r) && parts.len() == u1.len() && (forall|k: int|
            0 <= k < parts.len() ==> call_ensures(P::times, (&p, lay.params.charge, u1[k]), #[trigger] parts[k]));
    let p2 = choose|parts: Seq<P::Real>| #[trigger]
        summed(p, parts, s) && parts.len() == u2.len() && (forall|k: int|
            0 <= k < parts.len() ==> call_ensures(P::times, (&p, lay.params.charge, u2[k]), #[trigger] parts[k]));
    assert forall|k: int| #![trigger p1[k]] #![trigger p2[k]] 0 <= k < p1.len() implies val(p2[k]) == -val(p1[k]) by {
        assert(call_ensures(P::times, (&p, lay.params.charge, u1[k]), p1[k]));
        assert(call_ensures(P::times, (&p, lay.params.charge, u2[k]), p2[k]));
        assert(val(u2[k]) == -val(u1[k]));
        let (q, v) = (val(lay.params.charge), val(u1[k]));
        assert(q * (-v) == -(q * v)) by (nonlinear_arith);
    }
    lemma_sums_opposed(p, val, p1, p2, r, s);
}

proof fn lemma_tables_alike<P: Physics>(
    p: P,
    strength: P::Real,
    screening: P::Real,
    coupling: P::Real,
    hardness: P::Real,
    rp: int,
    r: Seq<P::Real>,
    s: Seq<P::Real>,
)
    requires
        castings_settled(p),
        rp >= 0,
        radial(r, rp, by_casting(p, strength, screening, coupling, hardness)),
        radial(s, rp, by_casting(p, strength, screening, coupling, hardness)),
    ensures
        r == s,
{
    let n = side(rp);
    let holds = by_casting(p, strength, screening, coupling, hardness);
    assert forall|c: int| 0 <= c < r.len() implies r[c] == s[c] by {
        lemma_flat_inverse(n, n, c);
        let (i, j) = (c / n, c % n);
        let r2 = ring(rp, i, j);
        assert(holds(r2, r[flat(n, i, j)]) && holds(r2, s[flat(n, i, j)]));
        lemma_casting_settled(p, r2, strength, screening, coupling, hardness, r[c], s[c]);
    }
    assert(r =~= s);
}

/// The same coverage closes the same cells.
proof fn lemma_closed_alike<P: Physics>(
    p: P,
    s0: Sim<P::Real>,
    s1: Sim<P::Real>,
    s2: Sim<P::Real>,
    pen: P::Real,
    c1: Laid<P::Real>,
    c2: Laid<P::Real>,
    b1: Seq<Laid<bool>>,
    b2: Seq<Laid<bool>>,
    n1: int,
    n2: int,
)
    requires
        castings_settled(p),
        c1.rows@ == c2.rows@,
        c1.cols@ == c2.cols@,
        c1.cells@ == c2.cells@,
        c1.cells@.len() == c1.rows@.len() * c1.cols@.len(),
        closed(p, s0, s1, pen, c1, b1, n1),
        closed(p, s0, s2, pen, c2, b2, n2),
    ensures
        n1 == n2,
        s1.paint_blocked@ == s2.paint_blocked@,
        s1.blocked@ == s2.blocked@,
{
    let (o1, t1) = choose|one: P::Real, shuts: bool| #[trigger]
        call_ensures(P::exceeds, (&p, one, pen), shuts) && call_ensures(P::one, (&p,), one) && if shuts {
            exists|newly: Laid<bool>| #[trigger] closed_by(p, s0, s1, pen, c1, b1, n1, newly)
        } else {
            b1.len() == 0 && n1 == 0 && s1.paint_blocked@ == s0.paint_blocked@ && s1.blocked@ == s0.blocked@
        };
    let (o2, t2) = choose|one: P::Real, shuts: bool| #[trigger]
        call_ensures(P::exceeds, (&p, one, pen), shuts) && call_ensures(P::one, (&p,), one) && if shuts {
            exists|newly: Laid<bool>| #[trigger] closed_by(p, s0, s2, pen, c2, b2, n2, newly)
        } else {
            b2.len() == 0 && n2 == 0 && s2.paint_blocked@ == s0.paint_blocked@ && s2.blocked@ == s0.blocked@
        };
    assert(o1 == o2 && t1 == t2);
    if t1 {
        let m1 = choose|newly: Laid<bool>| #[trigger] closed_by(p, s0, s1, pen, c1, b1, n1, newly);
        let m2 = choose|newly: Laid<bool>| #[trigger] closed_by(p, s0, s2, pen, c2, b2, n2, newly);
        let w = s0.params.w as int;
        let (rows, cols) = (c1.rows@.len() as int, c1.cols@.len() as int);
        assert forall|k: int| 0 <= k < m1.cells@.len() implies m1.cells@[k] == m2.cells@[k] by {
            lemma_flat_inverse(rows, cols, k);
            let (i, j) = (k / cols, k % cols);
            assert(m1.has(i, j) && m2.has(i, j));
            assert(c1.at(i, j) == c2.at(i, j) && c1.under(w, i, j) == c2.under(w, i, j));
            assert(m1.at(i, j) == m2.at(i, j));
        }
        assert(m1.cells@ =~= m2.cells@);
        lemma_flags_alike(w, m1, m2, s0.paint_blocked@, s1.paint_blocked@, s2.paint_blocked@);
        lemma_flags_alike(w, m1, m2, s0.blocked@, s1.blocked@, s2.blocked@);
    }
}

proof fn lemma_flags_alike(w: int, one: Laid<bool>, two: Laid<bool>, before: Seq<bool>, r: Seq<bool>, s: Seq<bool>)
    requires
        one.rows@ == two.rows@,
        one.cols@ == two.cols@,
        one.cells@ == two.cells@,
        merged(or_step(), w, one, before, r),
        merged(or_step(), w, two, before, s),
    ensures
        r == s,
{
    assert forall|c: int| 0 <= c < r.len() implies r[c] == s[c] by {
        if one.covers(w, c) {
            let (i, j) = choose|i: int, j: int| #[trigger] one.has(i, j) && one.under(w, i, j) == c;
            assert(two.has(i, j) && two.under(w, i, j) == c);
            assert(or_step()(before[c], one.at(i, j), r[c]));
            assert(or_step()(before[c], two.at(i, j), s[c]));
        } else {
            if two.covers(w, c) {
                let (i, j) = choose|i: int, j: int| #[trigger] two.has(i, j) && two.under(w, i, j) == c;
                assert(one.has(i, j) && one.under(w, i, j) == c);
            }
        }
    }
    assert(r =~= s);
}

proof fn lemma_covered_alike<P: Physics>(p: P, cov: Seq<P::Real>, n: int, m: int)
    requires
        castings_settled(p),
        covered(p, cov, n),
        covered(p, cov, m),
    ensures
        n == m,
{
    let (z1, f1) = choose|z: P::Real, flags: Seq<bool>| #[trigger] covered_by(p, cov, n, z, flags);
    let (z2, f2) = choose|z: P::Real, flags: Seq<bool>| #[trigger] covered_by(p, cov, m, z, flags);
    assert(z1 == z2);
    assert forall|i: int| 0 <= i < f1.len() implies f1[i] == f2[i] by {
        assert(call_ensures(P::exceeds, (&p, cov[i], z1), f1[i]) && call_ensures(P::exceeds, (&p, cov[i], z1), f2[i]));
    }
    assert(f1 =~= f2);
}

/// `s1` and `s2` come of `s0` by strokes that differ in sign alone: the charge,
/// what the field of it is worth, and all changes of paint, potential and
/// energy are opposite; the cells covered and closed are the same.
pub open spec fn same_but_sign<R>(
    val: spec_fn(R) -> real,
    s0: Sim<R>,
    s1: Sim<R>,
    s2: Sim<R>,
    r: PaintReport<R>,
    s: PaintReport<R>,
) -> bool {
    &&& r.painted_cells == s.painted_cells
    &&& r.blocked_new == s.blocked_new
    &&& val(s.charge) == -val(r.charge)
    &&& val(s.de_field) == -val(r.de_field)
    &&& opposite_changes(val, s0.paint@, s1.paint@, s2.paint@)
    &&& opposite_changes(val, s0.u_edge@, s1.u_edge@, s2.u_edge@)
    &&& val(s2.energy) - val(s0.energy) == -(val(s1.energy) - val(s0.energy))
    &&& s1.paint_blocked@ == s2.paint_blocked@
    &&& s1.blocked@ == s2.blocked@
}

/// Terms that change by opposite amounts have sums that do.
proof fn lemma_tally_mirrored(n: int, f: spec_fn(int) -> real, g: spec_fn(int) -> real, h: spec_fn(int) -> real)
    requires
        forall|i: int| #![trigger h(i)] 0 <= i < n ==> h(i) - f(i) == -(g(i) - f(i)),
    ensures
        tally(n, h) - tally(n, f) == -(tally(n, g) - tally(n, f)),
    decreases n,
{
    if n > 0 {
        lemma_tally_mirrored(n - 1, f, g, h);
        assert(h(n - 1) - f(n - 1) == -(g(n - 1) - f(n - 1)));
    }
}

proof fn lemma_factor_mirrored(a: real, b: real, c: real, k: real)
    requires
        c - a == -(b - a),
    ensures
        c * k - a * k == -(b * k - a * k),
        k * c - k * a == -(k * b - k * a),
{
    assert(c * k - a * k == -(b * k - a * k) && k * c - k * a == -(k * b - k * a)) by (nonlinear_arith)
        requires
            c - a == -(b - a),
    ;
}

/// Fields that change by opposite amounts cast potentials that do.
proof fn lemma_spread_mirrored<P: Physics>(
    p: P,
    val: spec_fn(P::Real) -> real,
    h: int,
    w: int,
    table: Seq<P::Real>,
    rc: int,
    periodic: bool,
    f0: Seq<P::Real>,
    f1: Seq<P::Real>,
    f2: Seq<P::Real>,
    o0: Seq<P::Real>,
    o1: Seq<P::Real>,
    o2: Seq<P::Real>,
)
    requires
        exact(p, val),
        castings_settled(p),
        rc >= 0,
        w >= 0,
        field_fits(h, w, rc, periodic),
        f0.len() == h * w,
        opposite_changes(val, f0, f1, f2),
        spread(p, f0, h, w, table, rc, periodic, o0),
        spread(p, f1, h, w, table, rc, periodic, o1),
        spread(p, f2, h, w, table, rc, periodic, o2),
    ensures
        opposite_changes(val, o0, o1, o2),
{
    let (z0, s0, k0, u0) = choose|z: P::Real, src: Seq<P::Real>, ker: Seq<P::Real>, full: Seq<P::Real>| #[trigger]
        spread_by(p, f0, h, w, table, rc, periodic, o0, z, src, ker, full);
    let (z1, s1, k1, u1) = choose|z: P::Real, src: Seq<P::Real>, ker: Seq<P::Real>, full: Seq<P::Real>| #[trigger]
        spread_by(p, f1, h, w, table, rc, periodic, o1, z, src, ker, full);
    let (z2, s2, k2, u2) = choose|z: P::Real, src: Seq<P::Real>, ker: Seq<P::Real>, full: Seq<P::Real>| #[trigger]
        spread_by(p, f2, h, w, table, rc, periodic, o2, z, src, ker, full);
    let (fh, fw, off) = (padded(h, rc, periodic), padded(w, rc, periodic), margin(rc, periodic));
    assert(z0 == z1 && z0 == z2);
    assert forall|c: int| 0 <= c < fh * fw implies k0[c] == k1[c] && k0[c] == k2[c] by {
        lemma_flat_inverse(fh, fw, c);
        let (y, x) = (c / fw, c % fw);
        assert(k0[flat(fw, y, x)] == k1[flat(fw, y, x)] && k0[flat(fw, y, x)] == k2[flat(fw, y, x)]);
    }
    assert(k0 =~= k1 && k0 =~= k2);
    assert forall|c: int|
        #![trigger s1[c]]
        #![trigger s2[c]]
        0 <= c < fh * fw implies val(s2[c]) - val(s0[c]) == -(val(s1[c]) - val(s0[c])) by {
        lemma_flat_inverse(fh, fw, c);
        let (y, x) = (c / fw, c % fw);
        let g = flat(fw, y, x);
        assert(s0[g] == s0[c] && s1[g] == s1[c] && s2[g] == s2[c]);
        if off <= y < off + h && off <= x < off + w {
            lemma_flat_bound(h, w, y - off, x - off);
            let k = flat(w, y - off, x - off);
            assert(val(f2[k]) - val(f0[k]) == -(val(f1[k]) - val(f0[k])));
        }
    }
    lemma_convolved_exact(p, val, fh, fw, s0, k0, u0);
    lemma_convolved_exact(p, val, fh, fw, s1, k0, u1);
    lemma_convolved_exact(p, val, fh, fw, s2, k0, u2);
    assert forall|c: int|
        #![trigger o1[c]]
        #![trigger o2[c]]
        0 <= c < o0.len() implies val(o2[c]) - val(o0[c]) == -(val(o1[c]) - val(o0[c])) by {
        lemma_flat_inverse(h, w, c);
        let (y, x) = (c / w, c % w);
        assert(o0[flat(w, y, x)] == o0[c] && o1[flat(w, y, x)] == o1[c] && o2[flat(w, y, x)] == o2[c]);
        let (v, u) = (y + off, x + off);
        let t0 = |c: int| val(s0[c]) * val(k0[flat(fw, (v - c / fw) % fh, (u - c % fw) % fw)]);
        let t1 = |c: int| val(s1[c]) * val(k0[flat(fw, (v - c / fw) % fh, (u - c % fw) % fw)]);
        let t2 = |c: int| val(s2[c]) * val(k0[flat(fw, (v - c / fw) % fh, (u - c % fw) % fw)]);
        assert(0 <= v < fh && 0 <= u < fw);
        assert(val(u0[flat(fw, v, u)]) == tally(fh * fw, t0));
        assert(val(u1[flat(fw, v, u)]) == tally(fh * fw, t1));
        assert(val(u2[flat(fw, v, u)]) == tally(fh * fw, t2));
        assert forall|i: int| #![trigger t2(i)] 0 <= i < fh * fw implies t2(i) - t0(i) == -(t1(i) - t0(i)) by {
            assert(val(s2[i]) - val(s0[i]) == -(val(s1[i]) - val(s0[i])));
            lemma_factor_mirrored(
                val(s0[i]),
                val(s1[i]),
                val(s2[i]),
                val(k0[flat(fw, (v - i / fw) % fh, (u - i % fw) % fw)]),
            );
        }
        lemma_tally_mirrored(fh * fw, t0, t1, t2);
    }
}

/// The potential and the energy of the gas are those worked out afresh.
pub open spec fn worked_out<P: Physics>(p: P, s0: Sim<P::Real>) -> bool {
    &&& s0.wf()
    &&& cast_afresh(
        p,
        s0.params,
        s0.cov@,
        s0.line_density,
        s0.paint@,
        s0.kernel_edge@,
        s0.rc as int,
        s0.u_edge@,
    )
    &&& totals(p, s0.layout(), s0.energy)
}

/// Paint that changes by opposite amounts changes what is worked out afresh by
/// opposite amounts.
proof fn lemma_afresh_mirrored<P: Physics>(
    p: P,
    val: spec_fn(P::Real) -> real,
    s0: Sim<P::Real>,
    q1: Seq<P::Real>,
    q2: Seq<P::Real>,
    u1: Seq<P::Real>,
    u2: Seq<P::Real>,
)
    requires
        exact(p, val),
        castings_settled(p),
        worked_out(p, s0),
        opposite_changes(val, s0.paint@, q1, q2),
        cast_afresh(p, s0.params, s0.cov@, s0.line_density, q1, s0.kernel_edge@, s0.rc as int, u1),
        cast_afresh(p, s0.params, s0.cov@, s0.line_density, q2, s0.kernel_edge@, s0.rc as int, u2),
    ensures
        opposite_changes(val, s0.u_edge@, u1, u2),
{
    let (h, w, rc) = (s0.params.h as int, s0.params.w as int, s0.rc as int);
    let (cov, density, table, periodic) = (s0.cov@, s0.line_density, s0.kernel_edge@, s0.params.periodic);
    let (l0, e0) = choose|line: Seq<P::Real>, edge: Seq<P::Real>| #[trigger]
        cast_from(p, cov, density, s0.paint@, line, edge) && spread(p, edge, h, w, table, rc, periodic, s0.u_edge@);
    let (l1, e1) = choose|line: Seq<P::Real>, edge: Seq<P::Real>| #[trigger]
        cast_from(p, cov, density, q1, line, edge) && spread(p, edge, h, w, table, rc, periodic, u1);
    let (l2, e2) = choose|line: Seq<P::Real>, edge: Seq<P::Real>| #[trigger]
        cast_from(p, cov, density, q2, line, edge) && spread(p, edge, h, w, table, rc, periodic, u2);
    assert forall|c: int|
        #![trigger e1[c]]
        #![trigger e2[c]]
        0 <= c < e0.len() implies val(e2[c]) - val(e0[c]) == -(val(e1[c]) - val(e0[c])) by {
        assert(call_ensures(P::times, (&p, cov[c], density), l0[c]));
        assert(call_ensures(P::times, (&p, cov[c], density), l1[c]));
        assert(call_ensures(P::times, (&p, cov[c], density), l2[c]));
        assert(call_ensures(P::plus, (&p, l0[c], s0.paint@[c]), e0[c]));
        assert(call_ensures(P::plus, (&p, l1[c], q1[c]), e1[c]));
        assert(call_ensures(P::plus, (&p, l2[c], q2[c]), e2[c]));
        assert(val(q2[c]) - val(s0.paint@[c]) == -(val(q1[c]) - val(s0.paint@[c])));
    }
    lemma_spread_mirrored(p, val, h, w, table, rc, periodic, e0, e1, e2, s0.u_edge@, u1, u2);
}

/// So does the energy in a potential that changes by opposite amounts.
proof fn lemma_energy_mirrored<P: Physics>(
    p: P,
    val: spec_fn(P::Real) -> real,
    s0: Sim<P::Real>,
    u1: Seq<P::Real>,
    u2: Seq<P::Real>,
    e1: P::Real,
    e2: P::Real,
)
    requires
        exact(p, val),
        all_settled(p),
        worked_out(p, s0),
        opposite_changes(val, s0.u_edge@, u1, u2),
        totals(p, (Layout { u_edge: u1, ..s0.layout() }), e1),
        totals(p, (Layout { u_edge: u2, ..s0.layout() }), e2),
    ensures
        val(e2) - val(s0.energy) == -(val(e1) - val(s0.energy)),
{
    let lay = s0.layout();
    let (h, w, rc, periodic) = (s0.params.h as int, s0.params.w as int, s0.rc as int, s0.params.periodic);
    let (f0, c0, m0, d0) = choose|field: Seq<P::Real>, conv: Seq<P::Real>, e_mm: P::Real, e_edge: P::Real| #[trigger]
        totals_by(p, lay, s0.energy, field, conv, e_mm, e_edge);
    let (f1, c1, m1, d1) = choose|field: Seq<P::Real>, conv: Seq<P::Real>, e_mm: P::Real, e_edge: P::Real| #[trigger]
        totals_by(p, (Layout { u_edge: u1, ..lay }), e1, field, conv, e_mm, e_edge);
    let (f2, c2, m2, d2) = choose|field: Seq<P::Real>, conv: Seq<P::Real>, e_mm: P::Real, e_edge: P::Real| #[trigger]
        totals_by(p, (Layout { u_edge: u2, ..lay }), e2, field, conv, e_mm, e_edge);
    lemma_charged_settled(p, lay.occ, f0, f1);
    lemma_charged_settled(p, lay.occ, f0, f2);
    lemma_spread_settled(p, f0, h, w, lay.kernel, rc, periodic, c0, c1);
    lemma_spread_settled(p, f0, h, w, lay.kernel, rc, periodic, c0, c2);
    lemma_dotted_settled(p, f0, c0, m0, m1);
    lemma_dotted_settled(p, f0, c0, m0, m2);
    lemma_dots_mirrored(p, val, f0, lay.u_edge, u1, u2, d0, d1, d2);
    let q = lay.params.charge;
    lemma_total_exact(p, val, q, m0, d0, s0.energy);
    lemma_total_exact(p, val, q, m0, d1, e1);
    lemma_total_exact(p, val, q, m0, d2, e2);
    lemma_factor_mirrored(val(d0), val(d1), val(d2), val(q));
}

/// The field of the particles is then one.
pub proof fn lemma_charged_settled<P: Physics>(p: P, occ: Seq<bool>, r: Seq<P::Real>, s: Seq<P::Real>)
    requires
        all_settled(p),
        charged(p, occ, r),
        charged(p, occ, s),
    ensures
        r == s,
{
    assert forall|i: int| 0 <= i < r.len() implies r[i] == s[i] by {
        assert(if occ[i] {
            call_ensures(P::one, (&p,), r[i]) && call_ensures(P::one, (&p,), s[i])
        } else {
            call_ensures(P::zero, (&p,), r[i]) && call_ensures(P::zero, (&p,), s[i])
        });
    }
    assert(r =~= s);
}

proof fn lemma_dots_mirrored<P: Physics>(
    p: P,
    val: spec_fn(P::Real) -> real,
    a: Seq<P::Real>,
    b0: Seq<P::Real>,
    b1: Seq<P::Real>,
    b2: Seq<P::Real>,
    r0: P::Real,
    r1: P::Real,
    r2: P::Real,
)
    requires
        exact(p, val),
        a.len() == b0.len(),
        opposite_changes(val, b0, b1, b2),
        dotted(p, a, b0, r0),
        dotted(p, a, b1, r1),
        dotted(p, a, b2, r2),
    ensures
        val(r2) - val(r0) == -(val(r1) - val(r0)),
{
    let p0 = choose|parts: Seq<P::Real>| #[trigger]
        summed(p, parts, r0) && parts.len() == a.len() && (forall|i: int|
            0 <= i < a.len() ==> call_ensures(P::times, (&p, a[i], b0[i]), #[trigger] parts[i]));
    let p1 = choose|parts: Seq<P::Real>| #[trigger]
        summed(p, parts, r1) && parts.len() == a.len() && (forall|i: int|
            0 <= i < a.len() ==> call_ensures(P::times, (&p, a[i], b1[i]), #[trigger] parts[i]));
    let p2 = choose|parts: Seq<P::Real>| #[trigger]
        summed(p, parts, r2) && parts.len() == a.len() && (forall|i: int|
            0 <= i < a.len() ==> call_ensures(P::times, (&p, a[i], b2[i]), #[trigger] parts[i]));
    lemma_summed_exact(p, val, p0, r0);
    lemma_summed_exact(p, val, p1, r1);
    lemma_summed_exact(p, val, p2, r2);
    let (t0, t1, t2) = (|i: int| val(p0[i]), |i: int| val(p1[i]), |i: int| val(p2[i]));
    assert forall|i: int| #![trigger t2(i)] 0 <= i < a.len() implies t2(i) - t0(i) == -(t1(i) - t0(i)) by {
        assert(call_ensures(P::times, (&p, a[i], b0[i]), p0[i]));
        assert(call_ensures(P::times, (&p, a[i], b1[i]), p1[i]));
        assert(call_ensures(P::times, (&p, a[i], b2[i]), p2[i]));
        assert(val(b2[i]) - val(b0[i]) == -(val(b1[i]) - val(b0[i])));
        lemma_factor_mirrored(val(b0[i]), val(b1[i]), val(b2[i]), val(a[i]));
    }
    lemma_tally_mirrored(a.len() as int, t0, t1, t2);
}

/// The potential that a patch casts is laid on the lattice as a patch: it is
/// anywhere between walls, and on a torus that has room for it.
pub open spec fn is_local<P: Physics>(p: P, s0: Sim<P::Real>, brush: Brush<P::Real>, patch: StrokePatch<P::Real>) -> bool {
    forall|rp: usize| #[trigger] reach_is(p, brush.coupling, rp) ==> hits_wide(s0, patch, rp as int)
}

/// Between walls the potential of a patch that hits the lattice hits it too.
pub proof fn law_potentials_are_local_between_walls<P: Physics>(
    p: P,
    s0: Sim<P::Real>,
    brush: Brush<P::Real>,
    patch: StrokePatch<P::Real>,
)
    requires
        !s0.params.periodic,
        hits(s0, patch),
    ensures
        is_local(p, s0, brush, patch),
{
}

/// Laying opposite patches does the opposite.
pub proof fn law_opposite_patches_do_the_opposite<P: Physics>(
    p: P,
    val: spec_fn(P::Real) -> real,
    s0: Sim<P::Real>,
    s1: Sim<P::Real>,
    s2: Sim<P::Real>,
    one: Brush<P::Real>,
    two: Brush<P::Real>,
    a: StrokePatch<P::Real>,
    b: StrokePatch<P::Real>,
    first: bool,
    r: PaintReport<P::Real>,
    s: PaintReport<P::Real>,
)
    requires
        exact(p, val),
        strokes_settled(p),
        all_settled(p),
        opposite_brushes(val, one, two),
        opposite_patches(val, a, b),
        laid_down(p, s0, s1, a, one, first, r),
        laid_down(p, s0, s2, b, two, first, s),
        hits(s0, a) ==> is_local(p, s0, one, a) || worked_out(p, s0),
    ensures
        same_but_sign(val, s0, s1, s2, r, s),
{
    let (h, w, periodic) = (s0.params.h as int, s0.params.w as int, s0.params.periodic);
    let (y0, x0, ph, pw) = (a.y0 as int, a.x0 as int, a.ph as int, a.pw as int);
    if hits(s0, a) {
        let (q1, c1, u1, b1) = choose|q: Laid<P::Real>, c: Laid<P::Real>, u: Laid<P::Real>, bs: Seq<Laid<bool>>| #[trigger]
            laid_down_by(p, s0, s1, a, one, first, r, q, c, u, bs);
        let (q2, c2, u2, b2) = choose|q: Laid<P::Real>, c: Laid<P::Real>, u: Laid<P::Real>, bs: Seq<Laid<bool>>| #[trigger]
            laid_down_by(p, s0, s2, b, two, first, s, q, c, u, bs);
        lemma_placed_opposed(val, a.dq@, b.dq@, y0, x0, ph, pw, h, w, periodic, q1, q2);
        lemma_sums_opposed(p, val, q1.cells@, q2.cells@, r.charge, s.charge);
        lemma_merged_opposed(p, val, w, q1, q2, s0.paint@, s1.paint@, s2.paint@);
        lemma_placed_lines(a.cov@, b.cov@, y0, x0, ph, pw, h, w, periodic, c1, c2);
        assert forall|k: int| 0 <= k < c1.cells@.len() implies c1.cells@[k] == c2.cells@[k] by {
            lemma_placed_alike(a.cov@, b.cov@, y0, x0, ph, pw, h, w, periodic, c1, c2, k);
        }
        assert(c1.cells@ =~= c2.cells@);
        lemma_covered_alike(p, c1.cells@, r.painted_cells as int, s.painted_cells as int);
        lemma_closed_alike(
            p,
            s0,
            s1,
            s2,
            one.penetrability,
            c1,
            c2,
            b1,
            b2,
            r.blocked_new as int,
            s.blocked_new as int,
        );
        lemma_fields_opposed(p, val, s0, s1, s2, one, two, a, b, u1, u2, r.de_field, s.de_field);
    }
}

proof fn lemma_fields_opposed<P: Physics>(
    p: P,
    val: spec_fn(P::Real) -> real,
    s0: Sim<P::Real>,
    s1: Sim<P::Real>,
    s2: Sim<P::Real>,
    one: Brush<P::Real>,
    two: Brush<P::Real>,
    a: StrokePatch<P::Real>,
    b: StrokePatch<P::Real>,
    u1: Laid<P::Real>,
    u2: Laid<P::Real>,
    d1: P::Real,
    d2: P::Real,
)
    requires
        exact(p, val),
        strokes_settled(p),
        all_settled(p),
        opposite_brushes(val, one, two),
        opposite_patches(val, a, b),
        opposite_changes(val, s0.paint@, s1.paint@, s2.paint@),
        repotentialed(p, s0, s1, a, one, u1, d1),
        repotentialed(p, s0, s2, b, two, u2, d2),
        is_local(p, s0, one, a) || worked_out(p, s0),
    ensures
        val(d2) == -val(d1),
        opposite_changes(val, s0.u_edge@, s1.u_edge@, s2.u_edge@),
        val(s2.energy) - val(s0.energy) == -(val(s1.energy) - val(s0.energy)),
{
    let (h, w, periodic) = (s0.params.h as int, s0.params.w as int, s0.params.periodic);
    let (k1, t1, f1) = choose|rp: usize, table: Seq<P::Real>, du: Seq<P::Real>| #[trigger]
        repotentialed_by(p, s0, s1, a, one, u1, d1, rp, table, du);
    let (k2, t2, f2) = choose|rp: usize, table: Seq<P::Real>, du: Seq<P::Real>| #[trigger]
        repotentialed_by(p, s0, s2, b, two, u2, d2, rp, table, du);
    assert(k1 == k2);
    let rp = k1 as int;
    assert(hits_wide(s0, a, rp) == hits_wide(s0, b, rp));
    if hits_wide(s0, a, rp) {
        let (strength, screening) = (s0.params.strength, s0.params.screening);
        lemma_tables_alike(p, strength, screening, one.coupling, one.hardness, rp, t1, t2);
        let (ph, pw, n) = (a.ph as int, a.pw as int, side(rp));
        lemma_casts_opposed(p, val, a.dq@, b.dq@, ph, pw, t1, n, f1, f2);
        assert(ph + n - 1 == ph + 2 * rp && pw + n - 1 == pw + 2 * rp);
        lemma_placed_opposed(val, f1, f2, a.y0 - rp, a.x0 - rp, ph + 2 * rp, pw + 2 * rp, h, w, periodic, u1, u2);
        lemma_merged_opposed(p, val, w, u1, u2, s0.u_edge@, s1.u_edge@, s2.u_edge@);
        lemma_worth_opposed(p, val, s0.layout(), u1, u2, d1, d2);
    } else {
        lemma_afresh_mirrored(p, val, s0, s1.paint@, s2.paint@, s1.u_edge@, s2.u_edge@);
        lemma_energy_mirrored(p, val, s0, s1.u_edge@, s2.u_edge@, s1.energy, s2.energy);
    }
}

/// Strokes along one path that differ in sign alone do the opposite, or fail
/// both. On a torus too small for the potential that they cast, the potential
/// before them is that of lines and paint.
pub proof fn law_opposite_strokes_do_the_opposite<P: Physics>(
    p: P,
    val: spec_fn(P::Real) -> real,
    s0: Sim<P::Real>,
    s1: Sim<P::Real>,
    s2: Sim<P::Real>,
    points: Seq<[P::Real; 2]>,
    one: Brush<P::Real>,
    two: Brush<P::Real>,
    first: bool,
    r: Result<PaintReport<P::Real>, TooLarge>,
    s: Result<PaintReport<P::Real>, TooLarge>,
)
    requires
        exact(p, val),
        odd(p, val),
        strokes_settled(p),
        all_settled(p),
        opposite_brushes(val, one, two),
        paints(p, s0, s1, points, one, first, r),
        paints(p, s0, s2, points, two, first, s),
        s0.params.periodic ==> worked_out(p, s0) || forall|patch: StrokePatch<P::Real>| #[trigger]
            brushed(p, points, one, first, Ok(Some(patch))) ==> is_local(p, s0, one, patch),
    ensures
        r is Ok <==> s is Ok,
        r is Ok ==> same_but_sign(val, s0, s1, s2, r->Ok_0, s->Ok_0),
{
    let t1 = choose|stroke: Result<Option<StrokePatch<P::Real>>, TooLarge>| #[trigger]
        brushed(p, points, one, first, stroke) && match stroke {
            Err(_) => r is Err && s1 == s0,
            Ok(None) => s1 == s0 && r is Ok && blank_report(p, r->Ok_0),
            Ok(Some(patch)) => lays(p, s0, s1, patch, one, first, r),
        };
    let t2 = choose|stroke: Result<Option<StrokePatch<P::Real>>, TooLarge>| #[trigger]
        brushed(p, points, two, first, stroke) && match stroke {
            Err(_) => s is Err && s2 == s0,
            Ok(None) => s2 == s0 && s is Ok && blank_report(p, s->Ok_0),
            Ok(Some(patch)) => lays(p, s0, s2, patch, two, first, s),
        };
    law_opposite_brushes_leave_opposite_charges(p, val, points, one, two, first, t1, t2);
    if t1 is Ok && t1->Ok_0 is Some {
        let (a, b) = (t1->Ok_0->Some_0, t2->Ok_0->Some_0);
        assert(hits(s0, a) == hits(s0, b));
        lemma_fit_alike(p, s0, s1, s2, one, two, a, b, first, r, s);
        if r is Ok {
            if hits(s0, a) {
                if s0.params.periodic {
                    assert(brushed(p, points, one, first, Ok(Some(a))));
                } else {
                    law_potentials_are_local_between_walls(p, s0, one, a);
                }
            }
            law_opposite_patches_do_the_opposite(p, val, s0, s1, s2, one, two, a, b, first, r->Ok_0, s->Ok_0);
        }
    }
}

/// The potentials of patches over the same cells both fit the machine, or both
/// do not.
proof fn lemma_fit_alike<P: Physics>(
    p: P,
    s0: Sim<P::Real>,
    s1: Sim<P::Real>,
    s2: Sim<P::Real>,
    one: Brush<P::Real>,
    two: Brush<P::Real>,
    a: StrokePatch<P::Real>,
    b: StrokePatch<P::Real>,
    first: bool,
    r: Result<PaintReport<P::Real>, TooLarge>,
    s: Result<PaintReport<P::Real>, TooLarge>,
)
    requires
        strokes_settled(p),
        one.coupling == two.coupling,
        a.y0 == b.y0,
        a.x0 == b.x0,
        a.ph == b.ph,
        a.pw == b.pw,
        lays(p, s0, s1, a, one, first, r),
        lays(p, s0, s2, b, two, first, s),
    ensures
        r is Ok <==> s is Ok,
{
    if r is Ok && s is Err {
        let (q, c, u, bs) = choose|q: Laid<P::Real>, c: Laid<P::Real>, u: Laid<P::Real>, bs: Seq<Laid<bool>>| #[trigger]
            laid_down_by(p, s0, s1, a, one, first, r->Ok_0, q, c, u, bs);
        let (rp, table, du) = choose|rp: usize, table: Seq<P::Real>, du: Seq<P::Real>| #[trigger]
            repotentialed_by(p, s0, s1, a, one, u, r->Ok_0.de_field, rp, table, du);
        assert(cast_fits(b, rp as int));
    }
    if s is Ok && r is Err {
        let (q, c, u, bs) = choose|q: Laid<P::Real>, c: Laid<P::Real>, u: Laid<P::Real>, bs: Seq<Laid<bool>>| #[trigger]
            laid_down_by(p, s0, s2, b, two, first, s->Ok_0, q, c, u, bs);
        let (rp, table, du) = choose|rp: usize, table: Seq<P::Real>, du: Seq<P::Real>| #[trigger]
            repotentialed_by(p, s0, s2, b, two, u, s->Ok_0.de_field, rp, table, du);
        assert(cast_fits(a, rp as int));
    }
}

} // verus!

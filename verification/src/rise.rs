//! Positive paint never lowers the potential.

use crate::convolve::{
    field_fits, full_fits, last_on, lemma_last_on, margin, padded, spread, spread_by, spread_full, wrapped_at,
};
use crate::exact::{exact, law_full_convolution_is_the_direct_sum, lemma_convolved_exact, lemma_summed_exact, lemma_total_exact, reads};
use crate::formulas::{
    alpha_by, alpha_is, amplitude_by, amplitude_is, casts, cover_is, norm_by, potential_is, repels, repels_by, tapered,
};
use crate::kernel::{by_casting, by_potential, lemma_ring_bound, radial, ring, side};
use crate::lattice::{flat, lemma_flat_bound, lemma_flat_inverse};
use crate::paint::{blank_report, cast_afresh, cast_from, hits, hits_wide, laid_down_by, lays, on_lit, paints, repotentialed_by};
use crate::patch::{merged, placed, starts, Laid};
use crate::physics::{plus_step, summed, Brush, PaintReport, Params, Physics};
use crate::repeat::{all_settled, lemma_dotted_settled, lemma_spread_settled};
use crate::scene::{totals, totals_by};
use crate::signs::{is_local, law_potentials_are_local_between_walls, lemma_charged_settled, worked_out};
use crate::sim::{Layout, Sim};
use crate::stroke::{
    along, brushed, cell_inked, inked, inked_by, inked_within, leg, leg_by, outlined, patched, stamped, stamped_in_turn, window,
    Extent, Sample, StrokePatch, TooLarge,
};
use crate::tally::tally;
use crate::terms::{beyond_is, cosine_fall_by, cosine_fall_is, decay_by, decay_is};
use vstd::prelude::*;

verus! {

/// Nothing that a brush or its potential is worked out from turns negative of
/// itself: what is not negative is shared out and divided to what is not
/// negative, exponentials are not negative, cosines not less than minus one, and
/// distances positive.
pub open spec fn keeps_positive<P: Physics>(p: P, val: spec_fn(P::Real) -> real) -> bool {
    &&& forall|r: P::Real| #[trigger] call_ensures(P::speck, (&p,), r) ==> val(r) > 0 as real
    &&& forall|r: P::Real| #[trigger] call_ensures(P::spacing, (&p,), r) ==> val(r) >= 0 as real
    &&& forall|a: P::Real, b: P::Real, r: P::Real| #[trigger] call_ensures(P::greater, (&p, a, b), r) ==> val(r) >= val(b)
    &&& forall|a: P::Real, b: P::Real, r: P::Real| #[trigger]
        call_ensures(P::quotient, (&p, a, b), r) && val(a) >= 0 as real && val(b) > 0 as real ==> val(r) >= 0 as real
    &&& forall|a: P::Real, m: usize, r: P::Real| #[trigger]
        call_ensures(P::share, (&p, a, m), r) && val(a) >= 0 as real ==> val(r) >= 0 as real
    &&& forall|v: P::Real, r: P::Real| #[trigger] call_ensures(P::cosine, (&p, v), r) ==> val(r) >= -(1 as real)
    &&& forall|v: P::Real, r: P::Real| #[trigger] call_ensures(P::exponential, (&p, v), r) ==> val(r) >= 0 as real
    &&& forall|r2: i64, r: P::Real| #[trigger] call_ensures(P::root, (&p, r2), r) && r2 > 0 ==> val(r) > 0 as real
}

/// No value reads negative.
pub open spec fn none_below<R>(val: spec_fn(R) -> real, s: Seq<R>) -> bool {
    forall|i: int| 0 <= i < s.len() ==> val(#[trigger] s[i]) >= 0 as real
}

/// The brush lays positive paint, or none.
pub open spec fn is_positive<R>(val: spec_fn(R) -> real, brush: Brush<R>) -> bool {
    &&& val(brush.sign) >= 0 as real
    &&& val(brush.magnitude) >= 0 as real
    &&& val(brush.density) >= 0 as real
    &&& val(brush.flow) >= 0 as real
}

proof fn lemma_product(a: real, b: real)
    requires
        a >= 0 as real,
        b >= 0 as real,
    ensures
        a * b >= 0 as real,
{
    assert(a * b >= 0 as real) by (nonlinear_arith)
        requires
            a >= 0 as real,
            b >= 0 as real,
    ;
}

proof fn lemma_alpha_positive<P: Physics>(p: P, val: spec_fn(P::Real) -> real, d: P::Real, radius: P::Real, hardness: P::Real, a: P::Real)
    requires
        exact(p, val),
        keeps_positive(p, val),
        alpha_is(p, d, radius, hardness, a),
    ensures
        val(a) >= 0 as real,
{
    let (hard, inner, within, outside, soft) = choose|
        hard: P::Real,
        inner: P::Real,
        within: bool,
        outside: bool,
        soft: bool,
    | #[trigger]
        alpha_by(p, d, radius, hardness, a, hard, inner, within, outside, soft);
    if !within && !outside && soft {
        lemma_fall_positive(p, val, d, inner, radius, a);
    }
}

proof fn lemma_fall_positive<P: Physics>(p: P, val: spec_fn(P::Real) -> real, d: P::Real, inner: P::Real, outer: P::Real, f: P::Real)
    requires
        exact(p, val),
        keeps_positive(p, val),
        cosine_fall_is(p, d, inner, outer, f),
    ensures
        val(f) >= 0 as real,
{
    let (a, b, t, pi, angle, c) = choose|a: P::Real, b: P::Real, t: P::Real, pi: P::Real, angle: P::Real, c: P::Real| #[trigger]
        cosine_fall_by(p, d, inner, outer, f, a, b, t, pi, angle, c);
    let (half, one, more) = choose|half: P::Real, one: P::Real, more: P::Real| #[trigger]
        call_ensures(P::times, (&p, half, more), f) && #[trigger] call_ensures(P::plus, (&p, one, c), more) && call_ensures(
            P::half,
            (&p,),
            half,
        ) && call_ensures(P::one, (&p,), one);
    lemma_product(val(half), val(more));
}

/// A repulsion at a distance is not negative.
proof fn lemma_repels_positive<P: Physics>(
    p: P,
    val: spec_fn(P::Real) -> real,
    r2: int,
    strength: P::Real,
    screening: P::Real,
    v: P::Real,
)
    requires
        exact(p, val),
        keeps_positive(p, val),
        val(strength) >= 0 as real,
        0 < r2 <= i64::MAX,
        repels(p, r2, strength, screening, v),
    ensures
        val(v) >= 0 as real,
{
    let (bare, zero, screened) = choose|bare: P::Real, zero: P::Real, screened: bool| #[trigger]
        repels_by(p, r2, strength, screening, v, bare, zero, screened);
    let r = choose|r: P::Real| #[trigger]
        call_ensures(P::quotient, (&p, strength, r), bare) && call_ensures(P::root, (&p, r2 as i64), r);
    assert(val(r) > 0 as real && val(bare) >= 0 as real);
    if screened {
        let g = choose|g: P::Real| #[trigger]
            call_ensures(P::times, (&p, bare, g), v) && decay_is(p, r2 as i64, screening, g);
        let (z, s, back, x) = choose|z: P::Real, s: P::Real, back: P::Real, x: P::Real| #[trigger]
            decay_by(p, r2 as i64, screening, g, z, s, back, x);
        lemma_product(val(bare), val(g));
    }
}

proof fn lemma_amplitude_positive<P: Physics>(p: P, val: spec_fn(P::Real) -> real, brush: Brush<P::Real>, radius: P::Real, amp: P::Real)
    requires
        exact(p, val),
        keeps_positive(p, val),
        is_positive(val, brush),
        amplitude_is(p, brush, radius, amp),
    ensures
        val(amp) >= 0 as real,
{
    let (norm, a, b, c) = choose|norm: P::Real, a: P::Real, b: P::Real, c: P::Real| #[trigger]
        amplitude_by(p, brush, radius, amp, norm, a, b, c);
    let (hard, one, more, plain, speck) = choose|hard: P::Real, one: P::Real, more: P::Real, plain: P::Real, speck: P::Real| #[trigger]
        norm_by(p, radius, brush.hardness, norm, hard, one, more, plain, speck);
    lemma_product(val(brush.sign), val(brush.magnitude));
    lemma_product(val(a), val(brush.density));
    lemma_product(val(b), val(brush.flow));
}

/// Stamps have doses that are not negative.
proof fn lemma_doses_positive<P: Physics>(
    p: P,
    val: spec_fn(P::Real) -> real,
    points: Seq<[P::Real; 2]>,
    first: bool,
    n: nat,
    stamps: Seq<Sample<P::Real>>,
    i: int,
)
    requires
        keeps_positive(p, val),
        along(p, points, first, n, stamps),
        0 <= i < stamps.len(),
    ensures
        val(stamps[i].dose) >= 0 as real,
    decreases n,
{
    if n >= 2 {
        let k = choose|k: int|
            0 <= k <= stamps.len() && along(p, points, first, (n - 1) as nat, #[trigger] stamps.take(k)) && leg(
                p,
                points[n - 2],
                points[n - 1],
                stamps.skip(k),
            );
        if i < k {
            lemma_doses_positive(p, val, points, first, (n - 1) as nat, stamps.take(k), i);
        } else {
            let rest = stamps.skip(k);
            let (d, s, q, c, all, dose) = choose|d: P::Real, s: P::Real, q: P::Real, c: i64, all: P::Real, dose: P::Real| #[trigger]
                leg_by(p, points[n - 2], points[n - 1], rest, d, s, q, c, all, dose);
            assert(rest[i - k] == stamps[i]);
            assert(rest[i - k].dose == dose);
            assert(val(all) >= val(s));
        }
    }
}

/// A stamp adds to the charge of no cell less than nothing.
proof fn lemma_stamp_positive<P: Physics>(
    p: P,
    val: spec_fn(P::Real) -> real,
    e: Extent,
    radius: P::Real,
    hardness: P::Real,
    amp: P::Real,
    stamp: Sample<P::Real>,
    before: (Seq<P::Real>, Seq<P::Real>),
    after: (Seq<P::Real>, Seq<P::Real>),
)
    requires
        exact(p, val),
        keeps_positive(p, val),
        e.width() >= 0,
        val(amp) >= 0 as real,
        val(stamp.dose) >= 0 as real,
        stamped(p, e.y0(), e.x0(), e.height(), e.width(), radius, hardness, amp, stamp, before, after),
        before.0.len() == e.height() * e.width(),
        none_below(val, before.0),
    ensures
        after.0.len() == e.height() * e.width(),
        none_below(val, after.0),
{
    let (y0, x0, ph, pw) = (e.y0(), e.x0(), e.height(), e.width());
    let (ly, hy, lx, hx) = choose|ly: int, hy: int, lx: int, hx: int|
        #![trigger window(p, stamp.at[0], radius, y0, ph, ly, hy), window(p, stamp.at[1], radius, x0, pw, lx, hx)]
        window(p, stamp.at[0], radius, y0, ph, ly, hy) && window(p, stamp.at[1], radius, x0, pw, lx, hx) && inked_within(
            p,
            y0,
            x0,
            ph,
            pw,
            radius,
            hardness,
            amp,
            stamp,
            before,
            after,
            ly,
            hy,
            lx,
            hx,
        );
    assert forall|k: int| 0 <= k < after.0.len() implies val(#[trigger] after.0[k]) >= 0 as real by {
        lemma_flat_inverse(ph, pw, k);
        let (y, x) = (k / pw, k % pw);
        assert(after.0[flat(pw, y, x)] == after.0[k]);
        assert(val(before.0[k]) >= 0 as real);
        if ly <= y < hy && lx <= x < hx {
            let (q0, c0, q1, c1) = (before.0[k], before.1[k], after.0[k], after.1[k]);
            assert(cell_inked(p, y0 + y, x0 + x, radius, hardness, amp, stamp, q0, c0, q1, c1));
            let a = choose|a: P::Real|
                cover_is(p, y0 + y, x0 + x, stamp.at, radius, hardness, a) && #[trigger] inked(
                    p,
                    amp,
                    stamp.dose,
                    a,
                    q0,
                    c0,
                    q1,
                    c1,
                );
            let d = choose|d: P::Real| #[trigger]
                alpha_is(p, d, radius, hardness, a) && call_ensures(
                    P::distance,
                    (&p, (y0 + y) as i64, (x0 + x) as i64, stamp.at),
                    d,
                );
            lemma_alpha_positive(p, val, d, radius, hardness, a);
            let (s, t, more) = choose|s: P::Real, t: P::Real, more: bool| #[trigger]
                inked_by(p, amp, stamp.dose, a, q0, c0, q1, c1, s, t, more);
            lemma_product(val(amp), val(stamp.dose));
            lemma_product(val(s), val(a));
        }
    }
}

proof fn lemma_states_positive<P: Physics>(
    p: P,
    val: spec_fn(P::Real) -> real,
    e: Extent,
    radius: P::Real,
    hardness: P::Real,
    amp: P::Real,
    stamps: Seq<Sample<P::Real>>,
    states: Seq<(Seq<P::Real>, Seq<P::Real>)>,
    k: nat,
)
    requires
        exact(p, val),
        keeps_positive(p, val),
        e.width() >= 0,
        e.height() * e.width() >= 0,
        val(amp) >= 0 as real,
        forall|i: int| 0 <= i < stamps.len() ==> val((#[trigger] stamps[i]).dose) >= 0 as real,
        stamped_in_turn(p, e, radius, hardness, amp, stamps, states),
        k <= stamps.len(),
    ensures
        states[k as int].0.len() == e.height() * e.width(),
        none_below(val, states[k as int].0),
    decreases k,
{
    if k > 0 {
        lemma_states_positive(p, val, e, radius, hardness, amp, stamps, states, (k - 1) as nat);
        let j = k - 1;
        lemma_stamp_positive(p, val, e, radius, hardness, amp, stamps[j], states[j], states[j + 1]);
    }
}

/// A brush of positive paint leaves no negative charge.
pub proof fn law_positive_brushes_leave_positive_charges<P: Physics>(
    p: P,
    val: spec_fn(P::Real) -> real,
    points: Seq<[P::Real; 2]>,
    brush: Brush<P::Real>,
    first: bool,
    patch: StrokePatch<P::Real>,
)
    requires
        exact(p, val),
        keeps_positive(p, val),
        is_positive(val, brush),
        brushed(p, points, brush, first, Ok(Some(patch))),
    ensures
        patch.dq@.len() == patch.ph * patch.pw,
        none_below(val, patch.dq@),
{
    let stamps = choose|stamps: Seq<Sample<P::Real>>| #[trigger]
        along(p, points, first, points.len(), stamps) && stamps.len() > 0 && (exists|radius: P::Real, e: Extent| #[trigger]
            outlined(p, brush, stamps, radius, e) && e.fits() && patched(p, brush, radius, e, stamps, patch));
    let (radius, e) = choose|radius: P::Real, e: Extent| #[trigger]
        outlined(p, brush, stamps, radius, e) && e.fits() && patched(p, brush, radius, e, stamps, patch);
    let (amp, states) = choose|amp: P::Real, states: Seq<(Seq<P::Real>, Seq<P::Real>)>|
        amplitude_is(p, brush, radius, amp) && #[trigger] stamped_in_turn(p, e, radius, brush.hardness, amp, stamps, states)
            && states.last() == (patch.dq@, patch.cov@);
    lemma_amplitude_positive(p, val, brush, radius, amp);
    assert forall|i: int| 0 <= i < stamps.len() implies val((#[trigger] stamps[i]).dose) >= 0 as real by {
        lemma_doses_positive(p, val, points, first, points.len(), stamps, i);
    }
    assert(e.width() == patch.pw && e.height() == patch.ph);
    assert(patch.ph * patch.pw >= 0) by (nonlinear_arith)
        requires
            patch.ph >= 0,
            patch.pw >= 0,
    ;
    lemma_states_positive(p, val, e, radius, brush.hardness, amp, stamps, states, stamps.len());
}

/// Where equal charges repel, a coupling table holds nothing negative.
proof fn lemma_table_positive<P: Physics>(
    p: P,
    val: spec_fn(P::Real) -> real,
    strength: P::Real,
    screening: P::Real,
    coupling: P::Real,
    hardness: P::Real,
    r2: int,
    v: P::Real,
)
    requires
        exact(p, val),
        keeps_positive(p, val),
        val(strength) >= 0 as real,
        r2 <= i64::MAX,
        casts(p, r2, strength, screening, coupling, hardness, v),
    ensures
        val(v) >= 0 as real,
{
    if r2 > 0 {
        let far = choose|far: bool| #[trigger]
            beyond_is(p, r2 as i64, coupling, far) && if far {
                call_ensures(P::zero, (&p,), v)
            } else {
                exists|a: P::Real, f: P::Real| #[trigger]
                    call_ensures(P::times, (&p, a, f), v) && repels(p, r2, strength, screening, a) && tapered(
                        p,
                        r2,
                        coupling,
                        hardness,
                        f,
                    )
            };
        if !far {
            let (a, f) = choose|a: P::Real, f: P::Real| #[trigger]
                call_ensures(P::times, (&p, a, f), v) && repels(p, r2, strength, screening, a) && tapered(
                    p,
                    r2,
                    coupling,
                    hardness,
                    f,
                );
            lemma_repels_positive(p, val, r2, strength, screening, a);
            let d = choose|d: P::Real| #[trigger]
                alpha_is(p, d, coupling, hardness, f) && call_ensures(P::root, (&p, r2 as i64), d);
            lemma_alpha_positive(p, val, d, coupling, hardness, f);
            lemma_product(val(a), val(f));
        }
    }
}

proof fn lemma_tally_positive(n: int, f: spec_fn(int) -> real)
    requires
        forall|i: int| #![trigger f(i)] 0 <= i < n ==> f(i) >= 0 as real,
    ensures
        tally(n, f) >= 0 as real,
    decreases n,
{
    if n > 0 {
        lemma_tally_positive(n - 1, f);
        assert(f(n - 1) >= 0 as real);
    }
}

/// Charges that are not negative cast no negative potential.
proof fn lemma_cast_positive<P: Physics>(
    p: P,
    val: spec_fn(P::Real) -> real,
    dq: Seq<P::Real>,
    ph: int,
    pw: int,
    table: Seq<P::Real>,
    n: int,
    out: Seq<P::Real>,
)
    requires
        exact(p, val),
        full_fits(ph, pw, n, n),
        dq.len() == ph * pw,
        none_below(val, dq),
        table.len() == n * n,
        none_below(val, table),
        spread_full(p, dq, ph, pw, table, n, n, out),
    ensures
        out.len() == (ph + n - 1) * (pw + n - 1),
        none_below(val, out),
{
    let (oh, ow) = (ph + n - 1, pw + n - 1);
    assert forall|k: int| 0 <= k < out.len() implies val(#[trigger] out[k]) >= 0 as real by {
        lemma_flat_inverse(oh, ow, k);
        let (y, x) = (k / ow, k % ow);
        law_full_convolution_is_the_direct_sum(p, val, dq, ph, pw, table, n, n, out, y, x);
        let f = |c: int| val(dq[c]) * reads(val, table, n, n, y - c / pw, x - c % pw);
        assert forall|c: int| #![trigger f(c)] 0 <= c < ph * pw implies f(c) >= 0 as real by {
            let (v, u) = (y - c / pw, x - c % pw);
            if 0 <= v < n && 0 <= u < n {
                lemma_flat_bound(n, n, v, u);
            }
            lemma_product(val(dq[c]), reads(val, table, n, n, v, u));
        }
        lemma_tally_positive(ph * pw, f);
    }
}

/// Where equal charges repel, the table of lines and paint holds nothing
/// negative.
proof fn lemma_repulsion_positive<P: Physics>(p: P, val: spec_fn(P::Real) -> real, r2: int, params: Params<P::Real>, v: P::Real)
    requires
        exact(p, val),
        keeps_positive(p, val),
        val(params.strength) >= 0 as real,
        r2 <= i64::MAX,
        potential_is(p, r2, params, false, v),
    ensures
        val(v) >= 0 as real,
{
    if r2 > 0 {
        let far = choose|far: bool| #[trigger]
            beyond_is(p, r2 as i64, params.cutoff, far) && if far {
                call_ensures(P::zero, (&p,), v)
            } else {
                exists|a: P::Real| #[trigger] repels(p, r2, params.strength, params.screening, a) && v == a
            };
        if !far {
            lemma_repels_positive(p, val, r2, params.strength, params.screening, v);
        }
    }
}

proof fn lemma_tally_raised(n: int, f: spec_fn(int) -> real, g: spec_fn(int) -> real)
    requires
        forall|i: int| #![trigger g(i)] 0 <= i < n ==> g(i) >= f(i),
    ensures
        tally(n, g) >= tally(n, f),
    decreases n,
{
    if n > 0 {
        lemma_tally_raised(n - 1, f, g);
        assert(g(n - 1) >= f(n - 1));
    }
}

/// Every value of `two` is that of `one`, or above it.
pub open spec fn raised<R>(val: spec_fn(R) -> real, one: Seq<R>, two: Seq<R>) -> bool {
    &&& one.len() == two.len()
    &&& forall|i: int| 0 <= i < one.len() ==> val(#[trigger] two[i]) >= val(one[i])
}

/// More charge casts more potential.
proof fn lemma_spread_raised<P: Physics>(
    p: P,
    val: spec_fn(P::Real) -> real,
    h: int,
    w: int,
    table: Seq<P::Real>,
    rc: int,
    periodic: bool,
    f0: Seq<P::Real>,
    f1: Seq<P::Real>,
    o0: Seq<P::Real>,
    o1: Seq<P::Real>,
)
    requires
        exact(p, val),
        rc >= 0,
        w >= 0,
        field_fits(h, w, rc, periodic),
        table.len() == side(rc) * side(rc),
        none_below(val, table),
        f0.len() == h * w,
        raised(val, f0, f1),
        spread(p, f0, h, w, table, rc, periodic, o0),
        spread(p, f1, h, w, table, rc, periodic, o1),
    ensures
        raised(val, o0, o1),
{
    let (z0, s0, k0, u0) = choose|z: P::Real, src: Seq<P::Real>, ker: Seq<P::Real>, full: Seq<P::Real>| #[trigger]
        spread_by(p, f0, h, w, table, rc, periodic, o0, z, src, ker, full);
    let (z1, s1, k1, u1) = choose|z: P::Real, src: Seq<P::Real>, ker: Seq<P::Real>, full: Seq<P::Real>| #[trigger]
        spread_by(p, f1, h, w, table, rc, periodic, o1, z, src, ker, full);
    let (fh, fw, off) = (padded(h, rc, periodic), padded(w, rc, periodic), margin(rc, periodic));
    assert forall|y: int, x: int| 0 <= y < fh && 0 <= x < fw implies val(#[trigger] k1[flat(fw, y, x)]) == val(k0[flat(fw, y, x)])
        && val(k0[flat(fw, y, x)]) >= 0 as real by {
        assert(k0[flat(fw, y, x)] == wrapped_at(table, rc, fh, fw, z0, y, x));
        assert(k1[flat(fw, y, x)] == wrapped_at(table, rc, fh, fw, z1, y, x));
        lemma_last_on_line(rc, fh, y);
        lemma_last_on_line(rc, fw, x);
        if let (Some(i), Some(j)) = (last_on(rc, fh, y), last_on(rc, fw, x)) {
            lemma_flat_bound(side(rc), side(rc), i, j);
        }
    }
    assert forall|c: int| 0 <= c < fh * fw implies val(#[trigger] s1[c]) >= val(s0[c]) by {
        lemma_flat_inverse(fh, fw, c);
        let (y, x) = (c / fw, c % fw);
        let g = flat(fw, y, x);
        assert(s0[g] == s0[c] && s1[g] == s1[c]);
        if off <= y < off + h && off <= x < off + w {
            lemma_flat_bound(h, w, y - off, x - off);
            let k = flat(w, y - off, x - off);
            assert(val(f1[k]) >= val(f0[k]));
        }
    }
    lemma_convolved_exact(p, val, fh, fw, s0, k0, u0);
    lemma_convolved_exact(p, val, fh, fw, s1, k1, u1);
    assert forall|c: int| 0 <= c < o0.len() implies val(#[trigger] o1[c]) >= val(o0[c]) by {
        lemma_flat_inverse(h, w, c);
        let (y, x) = (c / w, c % w);
        assert(o0[flat(w, y, x)] == o0[c] && o1[flat(w, y, x)] == o1[c]);
        let (v, u) = (y + off, x + off);
        assert(0 <= v < fh && 0 <= u < fw);
        let t0 = |c: int| val(s0[c]) * val(k0[flat(fw, (v - c / fw) % fh, (u - c % fw) % fw)]);
        let t1 = |c: int| val(s1[c]) * val(k1[flat(fw, (v - c / fw) % fh, (u - c % fw) % fw)]);
        assert(val(u0[flat(fw, v, u)]) == tally(fh * fw, t0));
        assert(val(u1[flat(fw, v, u)]) == tally(fh * fw, t1));
        assert forall|i: int| #![trigger t1(i)] 0 <= i < fh * fw implies t1(i) >= t0(i) by {
            let (dy, dx) = ((v - i / fw) % fh, (u - i % fw) % fw);
            let k = val(k0[flat(fw, dy, dx)]);
            assert(val(k1[flat(fw, dy, dx)]) == k && k >= 0 as real);
            let (a, b) = (val(s0[i]), val(s1[i]));
            assert(b >= a);
            assert(b * k >= a * k) by (nonlinear_arith)
                requires
                    b >= a,
                    k >= 0 as real,
            ;
        }
        lemma_tally_raised(fh * fw, t0, t1);
    }
}

/// A line that falls on a line of a ring is one of the table.
proof fn lemma_last_on_line(rc: int, n: int, r: int)
    requires
        rc >= 0,
        n > 0,
        0 <= r < n,
    ensures
        last_on(rc, n, r) matches Some(i) ==> 0 <= i < side(rc),
{
    lemma_last_on(rc, n, r);
    let b = (r + rc) % n;
    if b <= 2 * rc {
        let turns = (2 * rc - b) / n;
        vstd::arithmetic::div_mod::lemma_div_pos_is_pos(2 * rc - b, n);
        assert(n * turns >= 0) by (nonlinear_arith)
            requires
                n > 0,
                turns >= 0,
        ;
    }
}

/// The potential of the gas is that of lines and paint, through the table of
/// bare repulsion.
pub open spec fn has_repulsion<P: Physics>(p: P, s0: Sim<P::Real>) -> bool {
    &&& worked_out(p, s0)
    &&& radial(s0.kernel_edge@, s0.rc as int, by_potential(p, s0.params, false))
}

/// Positive paint never lowers the potential: where equal charges repel, a
/// stroke of it leaves every cell's potential as it was, or raises it. On a
/// torus too small for the potential that it casts, the potential before it is
/// that of lines and paint.
pub proof fn law_positive_paint_never_lowers_the_potential<P: Physics>(
    p: P,
    val: spec_fn(P::Real) -> real,
    s0: Sim<P::Real>,
    s1: Sim<P::Real>,
    points: Seq<[P::Real; 2]>,
    brush: Brush<P::Real>,
    first: bool,
    report: PaintReport<P::Real>,
    c: int,
)
    requires
        exact(p, val),
        keeps_positive(p, val),
        is_positive(val, brush),
        val(s0.params.strength) >= 0 as real,
        paints(p, s0, s1, points, brush, first, Ok(report)),
        s0.params.periodic ==> has_repulsion(p, s0) || forall|patch: StrokePatch<P::Real>| #[trigger]
            brushed(p, points, brush, first, Ok(Some(patch))) ==> is_local(p, s0, brush, patch),
        0 <= c < s0.u_edge@.len(),
    ensures
        s1.u_edge@.len() == s0.u_edge@.len(),
        val(s1.u_edge@[c]) >= val(s0.u_edge@[c]),
{
    let r = Ok::<PaintReport<P::Real>, TooLarge>(report);
    let stroke = choose|stroke: Result<Option<StrokePatch<P::Real>>, TooLarge>| #[trigger]
        brushed(p, points, brush, first, stroke) && match stroke {
            Err(_) => r is Err && s1 == s0,
            Ok(None) => s1 == s0 && r is Ok && blank_report(p, r->Ok_0),
            Ok(Some(patch)) => lays(p, s0, s1, patch, brush, first, r),
        };
    if stroke is Ok && stroke->Ok_0 is Some {
        let patch = stroke->Ok_0->Some_0;
        assert(stroke == Ok::<Option<StrokePatch<P::Real>>, TooLarge>(Some(patch)));
        if hits(s0, patch) {
            if !s0.params.periodic {
                law_potentials_are_local_between_walls(p, s0, brush, patch);
            }
            law_positive_brushes_leave_positive_charges(p, val, points, brush, first, patch);
            let (q, k, u, bs) = choose|q: Laid<P::Real>, k: Laid<P::Real>, u: Laid<P::Real>, bs: Seq<Laid<bool>>| #[trigger]
                laid_down_by(p, s0, s1, patch, brush, first, report, q, k, u, bs);
            let (rp, table, du) = choose|rp: usize, table: Seq<P::Real>, du: Seq<P::Real>| #[trigger]
                repotentialed_by(p, s0, s1, patch, brush, u, report.de_field, rp, table, du);
            if hits_wide(s0, patch, rp as int) {
                lemma_raised(p, val, s0, s1, patch, brush, u, report.de_field, rp, table, du, c);
            } else {
                let (h, w, periodic) = (s0.params.h as int, s0.params.w as int, s0.params.periodic);
                let (y0, x0, ph, pw) = (patch.y0 as int, patch.x0 as int, patch.ph as int, patch.pw as int);
                lemma_merge_raises(p, val, patch.dq@, y0, x0, ph, pw, h, w, periodic, q, s0.paint@, s1.paint@);
                lemma_raised_afresh(p, val, s0, s1.paint@, s1.u_edge@);
            }
        }
    }
}

/// Taking up a patch that holds nothing negative raises what takes it up.
proof fn lemma_merge_raises<P: Physics>(
    p: P,
    val: spec_fn(P::Real) -> real,
    src: Seq<P::Real>,
    y0: int,
    x0: int,
    ph: int,
    pw: int,
    h: int,
    w: int,
    periodic: bool,
    laid: Laid<P::Real>,
    before: Seq<P::Real>,
    after: Seq<P::Real>,
)
    requires
        exact(p, val),
        placed(src, y0, x0, ph, pw, h, w, periodic, laid),
        src.len() == ph * pw,
        none_below(val, src),
        merged(plus_step(p), w, laid, before, after),
    ensures
        raised(val, before, after),
{
    assert forall|c: int| 0 <= c < before.len() implies val(#[trigger] after[c]) >= val(before[c]) by {
        if laid.covers(w, c) {
            let (i, j) = choose|i: int, j: int| #[trigger] laid.has(i, j) && laid.under(w, i, j) == c;
            assert(plus_step(p)(before[c], laid.at(i, j), after[c]));
            let (sy, sx) = (starts(y0, periodic), starts(x0, periodic));
            lemma_flat_bound(ph, pw, sy + i, sx + j);
            assert(laid.at(i, j) == src[flat(pw, sy + i, sx + j)]);
        }
    }
}

proof fn lemma_raised_afresh<P: Physics>(p: P, val: spec_fn(P::Real) -> real, s0: Sim<P::Real>, q1: Seq<P::Real>, u1: Seq<P::Real>)
    requires
        exact(p, val),
        keeps_positive(p, val),
        val(s0.params.strength) >= 0 as real,
        has_repulsion(p, s0),
        raised(val, s0.paint@, q1),
        cast_afresh(p, s0.params, s0.cov@, s0.line_density, q1, s0.kernel_edge@, s0.rc as int, u1),
    ensures
        raised(val, s0.u_edge@, u1),
{
    let (h, w, rc) = (s0.params.h as int, s0.params.w as int, s0.rc as int);
    let (cov, density, table, periodic) = (s0.cov@, s0.line_density, s0.kernel_edge@, s0.params.periodic);
    let n = side(rc);
    let holds = by_potential(p, s0.params, false);
    assert forall|k: int| 0 <= k < table.len() implies val(#[trigger] table[k]) >= 0 as real by {
        lemma_flat_inverse(n, n, k);
        let (i, j) = (k / n, k % n);
        let r2 = ring(rc, i, j);
        lemma_ring_bound(rc, i, j);
        assert(holds(r2, table[flat(n, i, j)]));
        lemma_repulsion_positive(p, val, r2, s0.params, table[k]);
    }
    let (l0, e0) = choose|line: Seq<P::Real>, edge: Seq<P::Real>| #[trigger]
        cast_from(p, cov, density, s0.paint@, line, edge) && spread(p, edge, h, w, table, rc, periodic, s0.u_edge@);
    let (l1, e1) = choose|line: Seq<P::Real>, edge: Seq<P::Real>| #[trigger]
        cast_from(p, cov, density, q1, line, edge) && spread(p, edge, h, w, table, rc, periodic, u1);
    assert forall|c: int| 0 <= c < e0.len() implies val(#[trigger] e1[c]) >= val(e0[c]) by {
        assert(call_ensures(P::times, (&p, cov[c], density), l0[c]));
        assert(call_ensures(P::times, (&p, cov[c], density), l1[c]));
        assert(call_ensures(P::plus, (&p, l0[c], s0.paint@[c]), e0[c]));
        assert(call_ensures(P::plus, (&p, l1[c], q1[c]), e1[c]));
        assert(val(q1[c]) >= val(s0.paint@[c]));
    }
    lemma_spread_raised(p, val, h, w, table, rc, periodic, e0, e1, s0.u_edge@, u1);
}

/// The potential that positive charge casts holds nothing negative.
proof fn lemma_field_positive<P: Physics>(
    p: P,
    val: spec_fn(P::Real) -> real,
    s0: Sim<P::Real>,
    s1: Sim<P::Real>,
    patch: StrokePatch<P::Real>,
    brush: Brush<P::Real>,
    u: Laid<P::Real>,
    de: P::Real,
    rp: usize,
    table: Seq<P::Real>,
    du: Seq<P::Real>,
)
    requires
        exact(p, val),
        keeps_positive(p, val),
        val(s0.params.strength) >= 0 as real,
        patch.dq@.len() == patch.ph * patch.pw,
        none_below(val, patch.dq@),
        repotentialed_by(p, s0, s1, patch, brush, u, de, rp, table, du),
    ensures
        du.len() == (patch.ph + 2 * rp) * (patch.pw + 2 * rp),
        none_below(val, du),
{
    let (ph, pw, n) = (patch.ph as int, patch.pw as int, side(rp as int));
    let holds = by_casting(p, s0.params.strength, s0.params.screening, brush.coupling, brush.hardness);
    assert forall|k: int| 0 <= k < table.len() implies val(#[trigger] table[k]) >= 0 as real by {
        lemma_flat_inverse(n, n, k);
        let (i, j) = (k / n, k % n);
        let r2 = ring(rp as int, i, j);
        lemma_ring_bound(rp as int, i, j);
        assert(holds(r2, table[flat(n, i, j)]));
        lemma_table_positive(
            p,
            val,
            s0.params.strength,
            s0.params.screening,
            brush.coupling,
            brush.hardness,
            r2,
            table[k],
        );
    }
    lemma_cast_positive(p, val, patch.dq@, ph, pw, table, n, du);
    assert(ph + n - 1 == ph + 2 * rp && pw + n - 1 == pw + 2 * rp);
}

proof fn lemma_raised<P: Physics>(
    p: P,
    val: spec_fn(P::Real) -> real,
    s0: Sim<P::Real>,
    s1: Sim<P::Real>,
    patch: StrokePatch<P::Real>,
    brush: Brush<P::Real>,
    u: Laid<P::Real>,
    de: P::Real,
    rp: usize,
    table: Seq<P::Real>,
    du: Seq<P::Real>,
    c: int,
)
    requires
        exact(p, val),
        keeps_positive(p, val),
        val(s0.params.strength) >= 0 as real,
        patch.dq@.len() == patch.ph * patch.pw,
        none_below(val, patch.dq@),
        repotentialed_by(p, s0, s1, patch, brush, u, de, rp, table, du),
        hits_wide(s0, patch, rp as int),
        0 <= c < s0.u_edge@.len(),
    ensures
        s1.u_edge@.len() == s0.u_edge@.len(),
        val(s1.u_edge@[c]) >= val(s0.u_edge@[c]),
{
    let (ph, pw, w) = (patch.ph as int, patch.pw as int, s0.params.w as int);
    lemma_field_positive(p, val, s0, s1, patch, brush, u, de, rp, table, du);
    if u.covers(w, c) {
        let (i, j) = choose|i: int, j: int| #[trigger] u.has(i, j) && u.under(w, i, j) == c;
        assert(plus_step(p)(s0.u_edge@[c], u.at(i, j), s1.u_edge@[c]));
        let (y0, x0, wide, broad) = (patch.y0 - rp, patch.x0 - rp, ph + 2 * rp, pw + 2 * rp);
        let (sy, sx) = (starts(y0, s0.params.periodic), starts(x0, s0.params.periodic));
        lemma_flat_bound(wide, broad, sy + i, sx + j);
        assert(u.at(i, j) == du[flat(broad, sy + i, sx + j)]);
    }
}

proof fn lemma_sum_positive<P: Physics>(p: P, val: spec_fn(P::Real) -> real, terms: Seq<P::Real>, r: P::Real)
    requires
        exact(p, val),
        none_below(val, terms),
        summed(p, terms, r),
    ensures
        val(r) >= 0 as real,
{
    lemma_summed_exact(p, val, terms, r);
    let f = |i: int| val(terms[i]);
    assert forall|i: int| #![trigger f(i)] 0 <= i < terms.len() implies f(i) >= 0 as real by {
        assert(val(terms[i]) >= 0 as real);
    }
    lemma_tally_positive(terms.len() as int, f);
}

/// What is placed of a patch that holds nothing negative holds nothing negative.
proof fn lemma_placed_positive<R>(
    val: spec_fn(R) -> real,
    src: Seq<R>,
    y0: int,
    x0: int,
    ph: int,
    pw: int,
    h: int,
    w: int,
    periodic: bool,
    laid: Laid<R>,
)
    requires
        placed(src, y0, x0, ph, pw, h, w, periodic, laid),
        src.len() == ph * pw,
        none_below(val, src),
    ensures
        none_below(val, laid.cells@),
{
    assert forall|k: int| 0 <= k < laid.cells@.len() implies val(#[trigger] laid.cells@[k]) >= 0 as real by {
        let (rows, cols) = (laid.rows@.len() as int, laid.cols@.len() as int);
        lemma_flat_inverse(rows, cols, k);
        let (i, j) = (k / cols, k % cols);
        let (sy, sx) = (starts(y0, periodic), starts(x0, periodic));
        assert(laid.has(i, j));
        lemma_flat_bound(ph, pw, sy + i, sx + j);
        assert(laid.at(i, j) == laid.cells@[k]);
    }
}

proof fn lemma_on_lit_positive<R>(val: spec_fn(R) -> real, laid: Laid<R>, w: int, occ: Seq<bool>, n: nat)
    requires
        none_below(val, laid.cells@),
        n <= laid.cells@.len(),
    ensures
        none_below(val, on_lit(laid, w, occ, n)),
    decreases n,
{
    if n > 0 {
        lemma_on_lit_positive(val, laid, w, occ, (n - 1) as nat);
        assert(val(laid.cells@[n - 1]) >= 0 as real);
    }
}

/// A potential that is raised raises the energy of positive particles in it.
proof fn lemma_energy_raised<P: Physics>(
    p: P,
    val: spec_fn(P::Real) -> real,
    s0: Sim<P::Real>,
    u1: Seq<P::Real>,
    e1: P::Real,
)
    requires
        exact(p, val),
        all_settled(p),
        worked_out(p, s0),
        val(s0.params.charge) >= 0 as real,
        raised(val, s0.u_edge@, u1),
        totals(p, (Layout { u_edge: u1, ..s0.layout() }), e1),
    ensures
        val(e1) >= val(s0.energy),
{
    let lay = s0.layout();
    let (h, w, rc, periodic) = (s0.params.h as int, s0.params.w as int, s0.rc as int, s0.params.periodic);
    let (f0, c0, m0, d0) = choose|field: Seq<P::Real>, conv: Seq<P::Real>, e_mm: P::Real, e_edge: P::Real| #[trigger]
        totals_by(p, lay, s0.energy, field, conv, e_mm, e_edge);
    let (f1, c1, m1, d1) = choose|field: Seq<P::Real>, conv: Seq<P::Real>, e_mm: P::Real, e_edge: P::Real| #[trigger]
        totals_by(p, (Layout { u_edge: u1, ..lay }), e1, field, conv, e_mm, e_edge);
    lemma_charged_settled(p, lay.occ, f0, f1);
    lemma_spread_settled(p, f0, h, w, lay.kernel, rc, periodic, c0, c1);
    lemma_dotted_settled(p, f0, c0, m0, m1);
    let p0 = choose|parts: Seq<P::Real>| #[trigger]
        summed(p, parts, d0) && parts.len() == f0.len() && (forall|i: int|
            0 <= i < f0.len() ==> call_ensures(P::times, (&p, f0[i], lay.u_edge[i]), #[trigger] parts[i]));
    let p1 = choose|parts: Seq<P::Real>| #[trigger]
        summed(p, parts, d1) && parts.len() == f0.len() && (forall|i: int|
            0 <= i < f0.len() ==> call_ensures(P::times, (&p, f0[i], u1[i]), #[trigger] parts[i]));
    lemma_summed_exact(p, val, p0, d0);
    lemma_summed_exact(p, val, p1, d1);
    let (t0, t1) = (|i: int| val(p0[i]), |i: int| val(p1[i]));
    assert forall|i: int| #![trigger t1(i)] 0 <= i < f0.len() implies t1(i) >= t0(i) by {
        assert(call_ensures(P::times, (&p, f0[i], lay.u_edge[i]), p0[i]));
        assert(call_ensures(P::times, (&p, f0[i], u1[i]), p1[i]));
        assert(val(f0[i]) == if lay.occ[i] { 1 as real } else { 0 as real });
        assert(val(u1[i]) >= val(lay.u_edge[i]));
        lemma_weighed(val(f0[i]), val(lay.u_edge[i]), val(u1[i]));
    }
    lemma_tally_raised(f0.len() as int, t0, t1);
    let q = lay.params.charge;
    lemma_total_exact(p, val, q, m0, d0, s0.energy);
    lemma_total_exact(p, val, q, m0, d1, e1);
    lemma_weighed(val(q), val(d0), val(d1));
}

proof fn lemma_weighed(k: real, a: real, b: real)
    requires
        k >= 0 as real,
        a <= b,
    ensures
        k * a <= k * b,
{
    assert(k * a <= k * b) by (nonlinear_arith)
        requires
            k >= 0 as real,
            a <= b,
    ;
}

/// Positive paint repels positive particles: its charge, and what its field is
/// worth to them, are not negative. On a torus too small for the potential that it
/// casts, the potential and the energy before it are those worked out afresh.
pub proof fn law_positive_paint_repels<P: Physics>(
    p: P,
    val: spec_fn(P::Real) -> real,
    s0: Sim<P::Real>,
    s1: Sim<P::Real>,
    points: Seq<[P::Real; 2]>,
    brush: Brush<P::Real>,
    first: bool,
    report: PaintReport<P::Real>,
)
    requires
        exact(p, val),
        keeps_positive(p, val),
        is_positive(val, brush),
        val(s0.params.strength) >= 0 as real,
        val(s0.params.charge) >= 0 as real,
        paints(p, s0, s1, points, brush, first, Ok(report)),
        s0.params.periodic ==> all_settled(p) && has_repulsion(p, s0) || forall|patch: StrokePatch<P::Real>| #[trigger]
            brushed(p, points, brush, first, Ok(Some(patch))) ==> is_local(p, s0, brush, patch),
    ensures
        val(report.charge) >= 0 as real,
        val(report.de_field) >= 0 as real,
{
    let r = Ok::<PaintReport<P::Real>, TooLarge>(report);
    let stroke = choose|stroke: Result<Option<StrokePatch<P::Real>>, TooLarge>| #[trigger]
        brushed(p, points, brush, first, stroke) && match stroke {
            Err(_) => r is Err && s1 == s0,
            Ok(None) => s1 == s0 && r is Ok && blank_report(p, r->Ok_0),
            Ok(Some(patch)) => lays(p, s0, s1, patch, brush, first, r),
        };
    if stroke is Ok && stroke->Ok_0 is Some {
        let patch = stroke->Ok_0->Some_0;
        assert(stroke == Ok::<Option<StrokePatch<P::Real>>, TooLarge>(Some(patch)));
        if hits(s0, patch) {
            if !s0.params.periodic {
                law_potentials_are_local_between_walls(p, s0, brush, patch);
            }
            law_positive_brushes_leave_positive_charges(p, val, points, brush, first, patch);
            let (q, k, u, bs) = choose|q: Laid<P::Real>, k: Laid<P::Real>, u: Laid<P::Real>, bs: Seq<Laid<bool>>| #[trigger]
                laid_down_by(p, s0, s1, patch, brush, first, report, q, k, u, bs);
            let (h, w, periodic) = (s0.params.h as int, s0.params.w as int, s0.params.periodic);
            let (y0, x0, ph, pw) = (patch.y0 as int, patch.x0 as int, patch.ph as int, patch.pw as int);
            lemma_placed_positive(val, patch.dq@, y0, x0, ph, pw, h, w, periodic, q);
            lemma_sum_positive(p, val, q.cells@, report.charge);
            let (rp, table, du) = choose|rp: usize, table: Seq<P::Real>, du: Seq<P::Real>| #[trigger]
                repotentialed_by(p, s0, s1, patch, brush, u, report.de_field, rp, table, du);
            if hits_wide(s0, patch, rp as int) {
                lemma_field_positive(p, val, s0, s1, patch, brush, u, report.de_field, rp, table, du);
                let under = on_lit(u, w, s0.occ@, u.cells@.len());
                lemma_placed_positive(
                    val,
                    du,
                    y0 - rp,
                    x0 - rp,
                    ph + 2 * rp,
                    pw + 2 * rp,
                    h,
                    w,
                    periodic,
                    u,
                );
                lemma_on_lit_positive(val, u, w, s0.occ@, u.cells@.len());
                let parts = choose|parts: Seq<P::Real>| #[trigger]
                    summed(p, parts, report.de_field) && parts.len() == under.len() && (forall|k: int|
                        0 <= k < parts.len() ==> call_ensures(P::times, (&p, s0.params.charge, under[k]), #[trigger] parts[k]));
                assert forall|i: int| 0 <= i < parts.len() implies val(#[trigger] parts[i]) >= 0 as real by {
                    lemma_product(val(s0.params.charge), val(under[i]));
                }
                lemma_sum_positive(p, val, parts, report.de_field);
            } else {
                lemma_merge_raises(p, val, patch.dq@, y0, x0, ph, pw, h, w, periodic, q, s0.paint@, s1.paint@);
                lemma_raised_afresh(p, val, s0, s1.paint@, s1.u_edge@);
                lemma_energy_raised(p, val, s0, s1.u_edge@, s1.energy);
            }
        }
    }
}

} // verus!

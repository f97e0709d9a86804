//! A stroke stays near its points.

use crate::fold::{folded, partials};
use crate::formulas::radius_is;
use crate::lattice::flat;
use crate::paint::{blank_report, hits, in_run, laid_down_by, law_stroke_stays_in_its_box, lays, line_at, paints};
use crate::patch::Laid;
use crate::physics::{Brush, PaintReport, Physics};
use crate::sim::Sim;
use crate::stroke::{
    along, between_is, brushed, cell_above, cell_below, columns_of, greater_step, leg, leg_by, lesser_step, on_axis, outlined,
    patched, rows_of, Extent, Sample, StrokePatch, TooLarge,
};
use crate::terms::stamp_count;
use vstd::prelude::*;

verus! {

/// Arithmetic is exact on the numbers that `val` reads off, and keeps their
/// order: shares of a whole lie between nothing and one, the lesser and the
/// greater of two are one of them, searches start beyond everything, and
/// rounding to whole numbers passes over none.
pub open spec fn ordered<P: Physics>(p: P, val: spec_fn(P::Real) -> real) -> bool {
    &&& forall|a: P::Real, b: P::Real, r: P::Real| #[trigger]
        call_ensures(P::plus, (&p, a, b), r) ==> val(r) == val(a) + val(b)
    &&& forall|a: P::Real, b: P::Real, r: P::Real| #[trigger]
        call_ensures(P::minus, (&p, a, b), r) ==> val(r) == val(a) - val(b)
    &&& forall|a: P::Real, b: P::Real, r: P::Real| #[trigger]
        call_ensures(P::times, (&p, a, b), r) ==> val(r) == val(a) * val(b)
    &&& forall|k: u64, m: u64, r: P::Real| #[trigger]
        call_ensures(P::ratio, (&p, k, m), r) && k <= m && m > 0 ==> 0 as real <= val(r) <= 1 as real
    &&& forall|a: P::Real, b: P::Real, r: P::Real| #[trigger]
        call_ensures(P::lesser, (&p, a, b), r) ==> val(r) == val(a) || val(r) == val(b)
    &&& forall|a: P::Real, b: P::Real, r: P::Real| #[trigger]
        call_ensures(P::greater, (&p, a, b), r) ==> val(r) == val(a) || val(r) == val(b)
    &&& forall|h: P::Real, v: P::Real, r: P::Real| #[trigger]
        call_ensures(P::highest, (&p,), h) && #[trigger] call_ensures(P::lesser, (&p, h, v), r) ==> val(r) == val(v)
    &&& forall|l: P::Real, v: P::Real, r: P::Real| #[trigger]
        call_ensures(P::lowest, (&p,), l) && #[trigger] call_ensures(P::greater, (&p, l, v), r) ==> val(r) == val(v)
    &&& forall|v: P::Real, c: i64, n: i64| #[trigger]
        call_ensures(P::floor, (&p, v), c) && whole(n) <= val(v) ==> #[trigger] whole(n) <= whole(c)
    &&& forall|v: P::Real, c: i64, n: i64| #[trigger]
        call_ensures(P::ceil, (&p, v), c) && whole(n) >= val(v) ==> #[trigger] whole(n) >= whole(c)
}

/// A whole number.
pub open spec fn whole(n: i64) -> real {
    (n as int) as real
}

/// `v` reads no less than `lo` and no more than `hi`.
pub open spec fn between<R>(val: spec_fn(R) -> real, lo: real, v: R, hi: real) -> bool {
    lo <= val(v) <= hi
}

proof fn lemma_part_of_the_way(a: real, b: real, t: real, lo: real, hi: real)
    requires
        0 as real <= t <= 1 as real,
        lo <= a <= hi,
        lo <= b <= hi,
    ensures
        lo <= a + (b - a) * t <= hi,
{
    let d = b - a;
    assert(d >= 0 as real ==> 0 as real <= d * t <= d) by (nonlinear_arith)
        requires
            0 as real <= t <= 1 as real,
    ;
    assert(d <= 0 as real ==> d <= d * t <= 0 as real) by (nonlinear_arith)
        requires
            0 as real <= t <= 1 as real,
    ;
}

/// Stamps lie between the two points of their leg, in each coordinate.
pub proof fn law_stamps_lie_between_their_points<P: Physics>(
    p: P,
    val: spec_fn(P::Real) -> real,
    a: [P::Real; 2],
    b: [P::Real; 2],
    stamps: Seq<Sample<P::Real>>,
    k: int,
    axis: int,
    lo: real,
    hi: real,
)
    requires
        ordered(p, val),
        leg(p, a, b, stamps),
        0 <= k < stamps.len(),
        0 <= axis < 2,
        between(val, lo, a[axis], hi),
        between(val, lo, b[axis], hi),
    ensures
        between(val, lo, stamps[k].at[axis], hi),
{
    let (d, s, q, c, all, dose) = choose|d: P::Real, s: P::Real, q: P::Real, c: i64, all: P::Real, dose: P::Real| #[trigger]
        leg_by(p, a, b, stamps, d, s, q, c, all, dose);
    let m = stamp_count(c);
    let at = stamps[k].at;
    assert(between_is(p, a, b, k + 1, m, at));
    let t = choose|t: P::Real| #[trigger]
        call_ensures(P::ratio, (&p, (k + 1) as u64, m as u64), t) && on_axis(p, a[0], b[0], t, at[0]) && on_axis(
            p,
            a[1],
            b[1],
            t,
            at[1],
        );
    assert(0 as real <= val(t) <= 1 as real);
    assert(on_axis(p, a[axis], b[axis], t, at[axis]));
    let (x, e) = choose|x: P::Real, e: P::Real| #[trigger]
        call_ensures(P::times, (&p, x, t), e) && call_ensures(P::minus, (&p, b[axis], a[axis]), x) && call_ensures(
            P::plus,
            (&p, a[axis], e),
            at[axis],
        );
    lemma_part_of_the_way(val(a[axis]), val(b[axis]), val(t), lo, hi);
}

/// All stamps along a path lie in the box of its points.
proof fn lemma_stamps_in_the_box<P: Physics>(
    p: P,
    val: spec_fn(P::Real) -> real,
    points: Seq<[P::Real; 2]>,
    first: bool,
    n: nat,
    stamps: Seq<Sample<P::Real>>,
    axis: int,
    lo: real,
    hi: real,
    k: int,
)
    requires
        ordered(p, val),
        along(p, points, first, n, stamps),
        n <= points.len(),
        0 <= axis < 2,
        forall|i: int| 0 <= i < points.len() ==> between(val, lo, (#[trigger] points[i])[axis], hi),
        0 <= k < stamps.len(),
    ensures
        between(val, lo, stamps[k].at[axis], hi),
    decreases n,
{
    if n == 1 {
        assert(stamps[0].at == points[0]);
    } else {
        let cut = choose|cut: int|
            0 <= cut <= stamps.len() && along(p, points, first, (n - 1) as nat, #[trigger] stamps.take(cut)) && leg(
                p,
                points[n - 2],
                points[n - 1],
                stamps.skip(cut),
            );
        if k < cut {
            lemma_stamps_in_the_box(p, val, points, first, (n - 1) as nat, stamps.take(cut), axis, lo, hi, k);
        } else {
            law_stamps_lie_between_their_points(
                p,
                val,
                points[n - 2],
                points[n - 1],
                stamps.skip(cut),
                k - cut,
                axis,
                lo,
                hi,
            );
            assert(stamps.skip(cut)[k - cut] == stamps[k]);
        }
    }
}

proof fn lemma_least_at_least<P: Physics>(
    p: P,
    val: spec_fn(P::Real) -> real,
    vs: Seq<P::Real>,
    start: P::Real,
    trace: Seq<P::Real>,
    lo: real,
    n: nat,
)
    requires
        ordered(p, val),
        partials(lesser_step(p), start, vs, trace),
        call_ensures(P::highest, (&p,), start),
        forall|i: int| 0 <= i < vs.len() ==> val(#[trigger] vs[i]) >= lo,
        0 < n <= vs.len(),
    ensures
        val(trace[n as int]) >= lo,
    decreases n,
{
    let v = vs[n - 1];
    assert(lesser_step(p)(trace[n - 1], v, trace[n as int]));
    assert(call_ensures(P::lesser, (&p, trace[n - 1], v), trace[n as int]));
    if n > 1 {
        lemma_least_at_least(p, val, vs, start, trace, lo, (n - 1) as nat);
    }
}

proof fn lemma_most_at_most<P: Physics>(
    p: P,
    val: spec_fn(P::Real) -> real,
    vs: Seq<P::Real>,
    start: P::Real,
    trace: Seq<P::Real>,
    hi: real,
    n: nat,
)
    requires
        ordered(p, val),
        partials(greater_step(p), start, vs, trace),
        call_ensures(P::lowest, (&p,), start),
        forall|i: int| 0 <= i < vs.len() ==> val(#[trigger] vs[i]) <= hi,
        0 < n <= vs.len(),
    ensures
        val(trace[n as int]) <= hi,
    decreases n,
{
    let v = vs[n - 1];
    assert(greater_step(p)(trace[n - 1], v, trace[n as int]));
    assert(call_ensures(P::greater, (&p, trace[n - 1], v), trace[n as int]));
    if n > 1 {
        lemma_most_at_most(p, val, vs, start, trace, hi, (n - 1) as nat);
    }
}

/// The cells below and above numbers between two whole ones lie between them.
proof fn lemma_cells_between<P: Physics>(p: P, val: spec_fn(P::Real) -> real, vs: Seq<P::Real>, lo: i64, hi: i64, below: i64, above: i64)
    requires
        ordered(p, val),
        vs.len() > 0,
        forall|i: int| 0 <= i < vs.len() ==> between(val, whole(lo), #[trigger] vs[i], whole(hi)),
        cell_below(p, vs, below),
        cell_above(p, vs, above),
    ensures
        lo <= below,
        above <= hi,
{
    let (start, least) = choose|start: P::Real, least: P::Real|
        call_ensures(P::highest, (&p,), start) && #[trigger] folded(lesser_step(p), start, vs, least) && call_ensures(
            P::floor,
            (&p, least),
            below,
        );
    let trace = choose|trace: Seq<P::Real>| #[trigger] partials(lesser_step(p), start, vs, trace) && trace.last() == least;
    lemma_least_at_least(p, val, vs, start, trace, whole(lo), vs.len());
    assert(whole(lo) <= whole(below));
    let (begin, most) = choose|begin: P::Real, most: P::Real|
        call_ensures(P::lowest, (&p,), begin) && #[trigger] folded(greater_step(p), begin, vs, most) && call_ensures(
            P::ceil,
            (&p, most),
            above,
        );
    let other = choose|other: Seq<P::Real>| #[trigger] partials(greater_step(p), begin, vs, other) && other.last() == most;
    lemma_most_at_most(p, val, vs, begin, other, whole(hi), vs.len());
    assert(whole(hi) >= whole(above));
}

/// All points of a path lie in the box of these cells.
pub open spec fn in_box<R>(val: spec_fn(R) -> real, points: Seq<[R; 2]>, top: i64, bottom: i64, left: i64, right: i64) -> bool {
    &&& forall|i: int| 0 <= i < points.len() ==> between(val, whole(top), (#[trigger] points[i])[0], whole(bottom))
    &&& forall|i: int| 0 <= i < points.len() ==> between(val, whole(left), (#[trigger] points[i])[1], whole(right))
}

/// The patch lies in the box of these cells, grown by `pad` cells and one more.
pub open spec fn patch_in_box<R>(patch: StrokePatch<R>, top: i64, bottom: i64, left: i64, right: i64, pad: i64) -> bool {
    &&& top - pad - 1 <= patch.y0
    &&& patch.y0 + patch.ph <= bottom + pad + 2
    &&& left - pad - 1 <= patch.x0
    &&& patch.x0 + patch.pw <= right + pad + 2
}

/// `pad` is how many cells the stamps of a brush reach from their centres.
pub open spec fn pads<P: Physics>(p: P, brush: Brush<P::Real>, pad: i64) -> bool {
    exists|radius: P::Real| #[trigger] radius_is(p, brush.thickness, radius) && call_ensures(P::ceil, (&p, radius), pad)
}

/// The box of a stroke is that of its points, grown by the radius of the stamps
/// in whole cells, and by one more.
pub proof fn law_patch_lies_around_its_points<P: Physics>(
    p: P,
    val: spec_fn(P::Real) -> real,
    points: Seq<[P::Real; 2]>,
    brush: Brush<P::Real>,
    first: bool,
    patch: StrokePatch<P::Real>,
    top: i64,
    bottom: i64,
    left: i64,
    right: i64,
)
    requires
        ordered(p, val),
        in_box(val, points, top, bottom, left, right),
        brushed(p, points, brush, first, Ok(Some(patch))),
    ensures
        exists|pad: i64| #[trigger] pads(p, brush, pad) && patch_in_box(patch, top, bottom, left, right, pad),
{
    let stamps = choose|stamps: Seq<Sample<P::Real>>| #[trigger]
        along(p, points, first, points.len(), stamps) && stamps.len() > 0 && (exists|radius: P::Real, e: Extent| #[trigger]
            outlined(p, brush, stamps, radius, e) && e.fits() && patched(p, brush, radius, e, stamps, patch));
    let (radius, e) = choose|radius: P::Real, e: Extent| #[trigger]
        outlined(p, brush, stamps, radius, e) && e.fits() && patched(p, brush, radius, e, stamps, patch);
    let (ys, xs) = (rows_of(stamps), columns_of(stamps));
    assert forall|i: int| 0 <= i < ys.len() implies between(val, whole(top), #[trigger] ys[i], whole(bottom)) by {
        lemma_stamps_in_the_box(p, val, points, first, points.len(), stamps, 0, whole(top), whole(bottom), i);
    }
    assert forall|i: int| 0 <= i < xs.len() implies between(val, whole(left), #[trigger] xs[i], whole(right)) by {
        lemma_stamps_in_the_box(p, val, points, first, points.len(), stamps, 1, whole(left), whole(right), i);
    }
    lemma_cells_between(p, val, ys, top, bottom, e.top, e.bottom);
    lemma_cells_between(p, val, xs, left, right, e.left, e.right);
    assert(pads(p, brush, e.pad));
    assert(patch_in_box(patch, top, bottom, left, right, e.pad));
}

/// A longer run of lines holds the lines of a shorter one inside it.
proof fn lemma_longer_run(a: int, at: int, len: int, n: int, periodic: bool, from: int, to: int)
    requires
        in_run(a, at, len, n, periodic),
        from <= at,
        at + len <= to,
    ensures
        in_run(a, from, to - from, n, periodic),
{
    if periodic {
        let i = choose|i: int| 0 <= i < len && #[trigger] line_at(at, i, n) == a;
        assert(line_at(from, i + (at - from), n) == a);
    }
}

/// A stroke paints and closes cells near its points alone: in the box of its
/// points, grown by the radius of the stamps in whole cells, and by one more.
pub proof fn law_strokes_stay_near_their_points<P: Physics>(
    p: P,
    val: spec_fn(P::Real) -> real,
    s0: Sim<P::Real>,
    s1: Sim<P::Real>,
    points: Seq<[P::Real; 2]>,
    brush: Brush<P::Real>,
    first: bool,
    report: PaintReport<P::Real>,
    top: i64,
    bottom: i64,
    left: i64,
    right: i64,
    y: int,
    x: int,
)
    requires
        ordered(p, val),
        s0.wf(),
        in_box(val, points, top, bottom, left, right),
        paints(p, s0, s1, points, brush, first, Ok(report)),
        0 <= y < s0.params.h,
        0 <= x < s0.params.w,
        ({
            let i = flat(s0.params.w as int, y, x);
            s1.paint@[i] != s0.paint@[i] || s1.paint_blocked@[i] != s0.paint_blocked@[i] || s1.blocked@[i] != s0.blocked@[i]
        }),
    ensures
        exists|pad: i64| #[trigger]
            pads(p, brush, pad) && in_run(
                y,
                top - pad - 1,
                bottom - top + 2 * pad + 3,
                s0.params.h as int,
                s0.params.periodic,
            ) && in_run(x, left - pad - 1, right - left + 2 * pad + 3, s0.params.w as int, s0.params.periodic),
{
    let r = Ok::<PaintReport<P::Real>, TooLarge>(report);
    let stroke = choose|stroke: Result<Option<StrokePatch<P::Real>>, TooLarge>| #[trigger]
        brushed(p, points, brush, first, stroke) && match stroke {
            Err(_) => r is Err && s1 == s0,
            Ok(None) => s1 == s0 && r is Ok && blank_report(p, r->Ok_0),
            Ok(Some(patch)) => lays(p, s0, s1, patch, brush, first, r),
        };
    let patch = stroke->Ok_0->Some_0;
    assert(stroke == Ok::<Option<StrokePatch<P::Real>>, TooLarge>(Some(patch)));
    assert(hits(s0, patch));
    let (q, c, u, bs) = choose|q: Laid<P::Real>, c: Laid<P::Real>, u: Laid<P::Real>, bs: Seq<Laid<bool>>| #[trigger]
        laid_down_by(p, s0, s1, patch, brush, first, report, q, c, u, bs);
    law_stroke_stays_in_its_box(p, s0, s1, patch, brush, first, report, q, c, u, bs, y, x);
    law_patch_lies_around_its_points(p, val, points, brush, first, patch, top, bottom, left, right);
    let pad = choose|pad: i64| #[trigger] pads(p, brush, pad) && patch_in_box(patch, top, bottom, left, right, pad);
    let (h, w, periodic) = (s0.params.h as int, s0.params.w as int, s0.params.periodic);
    lemma_longer_run(y, patch.y0 as int, patch.ph as int, h, periodic, top - pad - 1, bottom + pad + 2);
    lemma_longer_run(x, patch.x0 as int, patch.pw as int, w, periodic, left - pad - 1, right + pad + 2);
}

} // verus!

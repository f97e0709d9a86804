//! Strokes of the brush in real numbers.

use crate::fold::{folded, partials};
use crate::formulas::{amplitude_is, cover_is};
use crate::lattice::{flat, lemma_flat_bound};
use crate::limits::law_ordinary_strokes_have_room;
use crate::numbers::{
    computes, in_range, is_distance, larger, lemma_amplitude, lemma_cover, lemma_one_root, lemma_radius,
    lemma_square_positive, profile_at, spread_over, to_unit, whole, Numbers,
};
use crate::paint::{blank_report, cast_fits, lays};
use crate::physics::{Brush, PaintReport, Physics};
use crate::signs::{lemma_along_settled, strokes_settled};
use crate::sim::Sim;
use crate::stroke::{
    along, between_is, brushed, cell_above, cell_below, cell_inked, columns_of, greater_step, inked, inked_by, inked_within,
    leg, leg_by, lesser_step, on_axis, outlined, patched, rows_of, stamped, stamped_in_turn, stroke_patch, stroke_samples,
    window, window_by, Extent, Sample, StrokePatch, TooLarge,
};
use crate::tally::tally;
use crate::terms::{reach_is, stamp_count};
use vstd::prelude::*;

verus! {

/// The coordinate `k` of `m` parts of the way from `a` to `b`.
pub open spec fn part_of_way(a: real, b: real, k: int, m: int) -> real {
    a + (b - a) * (whole(k) / whole(m))
}

proof fn lemma_leg<P: Physics>(p: P, n: Numbers<P::Real>, a: [P::Real; 2], b: [P::Real; 2], stamps: Seq<Sample<P::Real>>, d: real)
    requires
        computes(p, n),
        leg(p, a, b, stamps),
        is_distance(d, (n.val)(b[0]) - (n.val)(a[0]), (n.val)(b[1]) - (n.val)(a[1])),
        in_range(d / n.spacing),
        d / n.spacing <= whole(usize::MAX as int),
    ensures
        evenly_stamped(n, a, b, stamps, d),
{
    let (way, s, q, c, all, dose) = choose|way: P::Real, s: P::Real, q: P::Real, c: i64, all: P::Real, dose: P::Real| #[trigger]
        leg_by(p, a, b, stamps, way, s, q, c, all, dose);
    lemma_one_root((n.val)(way), d);
    let m = stamp_count(c);
    let (sp, mr) = (n.spacing, whole(m as int));
    let ratio = d / sp;
    assert((n.val)(q) == ratio);
    assert(whole(c - 1) < ratio <= whole(c as int));
    assert(c <= usize::MAX);
    assert(ratio * sp == d) by (nonlinear_arith)
        requires
            ratio == d / sp,
            sp > 0 as real,
    ;
    assert(ratio <= mr);
    assert(d <= mr * sp) by (nonlinear_arith)
        requires
            ratio * sp == d,
            ratio <= mr,
            sp > 0 as real,
    ;
    if m > 1 {
        let less = whole(m - 1);
        assert(less < ratio);
        assert(less * sp < d) by (nonlinear_arith)
            requires
                ratio * sp == d,
                less < ratio,
                sp > 0 as real,
        ;
    }
    let (dv, most) = ((n.val)(dose), larger(d, sp));
    assert(dv * mr == most) by (nonlinear_arith)
        requires
            dv == most / mr,
            mr >= 1 as real,
    ;
    assert forall|k: int, axis: int| 0 <= k < stamps.len() && 0 <= axis < 2 implies (n.val)((#[trigger] stamps[k]).at[axis]) == #[trigger] part_of_way(
        (n.val)(a[axis]),
        (n.val)(b[axis]),
        k + 1,
        stamps.len() as int,
    ) by {
        let at = stamps[k].at;
        assert(between_is(p, a, b, k + 1, m, at));
        let t = choose|t: P::Real| #[trigger]
            call_ensures(P::ratio, (&p, (k + 1) as u64, m as u64), t) && on_axis(p, a[0], b[0], t, at[0]) && on_axis(
                p,
                a[1],
                b[1],
                t,
                at[1],
            );
        assert(on_axis(p, a[axis], b[axis], t, at[axis]));
        let (x, e) = choose|x: P::Real, e: P::Real| #[trigger]
            call_ensures(P::times, (&p, x, t), e) && call_ensures(P::minus, (&p, b[axis], a[axis]), x) && call_ensures(
                P::plus,
                (&p, a[axis], e),
                at[axis],
            );
    }
    assert forall|k: int| 0 <= k < stamps.len() implies (n.val)((#[trigger] stamps[k]).dose) * mr == most by {
        assert(stamps[k].dose == dose);
    }
}

/// Stamps along the straight way from `a` to `b`, which is `d` long: as few as
/// leave no more than the spacing between them, and one at least; the last on `b`,
/// the others evenly before it; together with a dose as long as the way, and of
/// one spacing at least.
pub open spec fn evenly_stamped<R>(n: Numbers<R>, a: [R; 2], b: [R; 2], stamps: Seq<Sample<R>>, d: real) -> bool {
    let m = stamps.len() as int;
    &&& m >= 1
    &&& d <= whole(m) * n.spacing
    &&& m > 1 ==> whole(m - 1) * n.spacing < d
    &&& forall|k: int, axis: int|
        0 <= k < m && 0 <= axis < 2 ==> (n.val)((#[trigger] stamps[k]).at[axis]) == #[trigger] part_of_way(
            (n.val)(a[axis]),
            (n.val)(b[axis]),
            k + 1,
            m,
        )
    &&& forall|k: int| 0 <= k < m ==> (n.val)((#[trigger] stamps[k]).dose) * whole(m) == larger(d, n.spacing)
}

/// A stroke from one point to another, which does not start there, is stamped
/// evenly along the straight line between them.
pub proof fn law_stamps_lie_evenly_on_the_line<P: Physics>(
    p: P,
    n: Numbers<P::Real>,
    points: Vec<[P::Real; 2]>,
    stamps: Vec<Sample<P::Real>>,
    d: real,
)
    requires
        computes(p, n),
        points@.len() == 2,
        call_ensures(stroke_samples::<P>, (&p, &points, false), stamps),
        is_distance(
            d,
            (n.val)(points@[1][0]) - (n.val)(points@[0][0]),
            (n.val)(points@[1][1]) - (n.val)(points@[0][1]),
        ),
        in_range(d / n.spacing),
        d / n.spacing <= whole(usize::MAX as int),
    ensures
        evenly_stamped(n, points@[0], points@[1], stamps@, d),
{
    let (pts, s) = (points@, stamps@);
    assert(along(p, pts, false, 2, s));
    let k = choose|k: int|
        0 <= k <= s.len() && along(p, pts, false, 1, #[trigger] s.take(k)) && leg(p, pts[0], pts[1], s.skip(k));
    assert(s.take(k).len() == 0);
    assert(s.skip(0) =~= s);
    lemma_leg(p, n, pts[0], pts[1], s, d);
}

/// A point where a stroke starts is stamped once, with a dose of one spacing; one
/// where it does not start, not at all.
pub proof fn law_a_stroke_starts_with_a_dot<P: Physics>(
    p: P,
    n: Numbers<P::Real>,
    points: Vec<[P::Real; 2]>,
    first: bool,
    stamps: Vec<Sample<P::Real>>,
)
    requires
        computes(p, n),
        points@.len() == 1,
        call_ensures(stroke_samples::<P>, (&p, &points, first), stamps),
    ensures
        stamps@.len() == (if first {
            1int
        } else {
            0
        }),
        first ==> stamps@[0].at == points@[0] && (n.val)(stamps@[0].dose) == n.spacing,
{
    assert(along(p, points@, first, 1, stamps@));
}

/// Strokes can be split at a point: the stamps along a path are those along the
/// path to its last point but one, and those along its last leg.
pub proof fn law_strokes_are_stamped_leg_by_leg<P: Physics>(
    p: P,
    path: Vec<[P::Real; 2]>,
    head: Vec<[P::Real; 2]>,
    tail: Vec<[P::Real; 2]>,
    first: bool,
    whole_path: Vec<Sample<P::Real>>,
    along_head: Vec<Sample<P::Real>>,
    along_tail: Vec<Sample<P::Real>>,
)
    requires
        strokes_settled(p),
        path@.len() >= 2,
        head@ == path@.drop_last(),
        tail@ == path@.skip(path@.len() - 2),
        call_ensures(stroke_samples::<P>, (&p, &path, first), whole_path),
        call_ensures(stroke_samples::<P>, (&p, &head, first), along_head),
        call_ensures(stroke_samples::<P>, (&p, &tail, false), along_tail),
    ensures
        whole_path@ == along_head@ + along_tail@,
{
    let (pts, s) = (path@, whole_path@);
    let m = pts.len();
    let k = choose|k: int|
        0 <= k <= s.len() && along(p, pts, first, (m - 1) as nat, #[trigger] s.take(k)) && leg(
            p,
            pts[m - 2],
            pts[m - 1],
            s.skip(k),
        );
    lemma_along_prefix(p, pts, head@, first, (m - 1) as nat, s.take(k));
    lemma_along_settled(p, head@, first, (m - 1) as nat, s.take(k), along_head@);
    let t = tail@;
    assert(t[0] == pts[m - 2] && t[1] == pts[m - 1]);
    let none = Seq::<Sample<P::Real>>::empty();
    let rest = s.skip(k);
    assert(rest.take(0) =~= none && rest.skip(0) =~= rest);
    assert(along(p, t, false, 1, rest.take(0)));
    assert(along(p, t, false, 2, rest));
    lemma_along_settled(p, t, false, 2, rest, along_tail@);
    assert(s =~= s.take(k) + s.skip(k));
}

/// Stamps along the first points of a path depend on those points alone.
proof fn lemma_along_prefix<P: Physics>(
    p: P,
    path: Seq<[P::Real; 2]>,
    head: Seq<[P::Real; 2]>,
    first: bool,
    m: nat,
    stamps: Seq<Sample<P::Real>>,
)
    requires
        along(p, path, first, m, stamps),
        m <= head.len() <= path.len(),
        forall|i: int| 0 <= i < head.len() ==> head[i] == path[i],
    ensures
        along(p, head, first, m, stamps),
    decreases m,
{
    if m >= 2 {
        let k = choose|k: int|
            0 <= k <= stamps.len() && along(p, path, first, (m - 1) as nat, #[trigger] stamps.take(k)) && leg(
                p,
                path[m - 2],
                path[m - 1],
                stamps.skip(k),
            );
        lemma_along_prefix(p, path, head, first, (m - 1) as nat, stamps.take(k));
        assert(along(p, head, first, (m - 1) as nat, stamps.take(k)));
    }
}

/// The windows of a stamp hold all cells that it reaches.
proof fn lemma_window<P: Physics>(
    p: P,
    n: Numbers<P::Real>,
    centre: P::Real,
    radius: P::Real,
    at: int,
    size: int,
    lo: int,
    hi: int,
    y: int,
)
    requires
        computes(p, n),
        window(p, centre, radius, at, size, lo, hi),
        in_range((n.val)(centre) - (n.val)(radius)),
        in_range((n.val)(centre) + (n.val)(radius)),
        0 <= y < size,
        !(lo <= y < hi),
    ensures
        whole(at + y) < (n.val)(centre) - (n.val)(radius) || whole(at + y) > (n.val)(centre) + (n.val)(radius),
{
    let (near, far, a, b) = choose|near: P::Real, far: P::Real, a: i64, b: i64| #[trigger]
        window_by(p, centre, radius, at, size, lo, hi, near, far, a, b);
    if y < lo {
        assert(at + y < a);
        assert(whole(at + y) < whole(a as int));
        assert(whole(at + y) + 1 as real <= whole(a as int));
    } else {
        assert(at + y > b);
        assert(whole(at + y) >= whole(b as int) + 1 as real);
    }
}

/// A cell further off than the radius in one coordinate is not covered.
proof fn lemma_out_of_reach<R>(n: Numbers<R>, d: real, y: real, x: real, radius: real, hardness: real)
    requires
        is_distance(d, y, x),
        radius > 0 as real,
        y < -radius || y > radius || x < -radius || x > radius,
    ensures
        profile_at(n, d, radius, hardness) == 0 as real,
{
    lemma_square_positive(y);
    lemma_square_positive(x);
    assert(y < -radius || y > radius ==> y * y > radius * radius) by (nonlinear_arith)
        requires
            radius > 0 as real,
    ;
    assert(x < -radius || x > radius ==> x * x > radius * radius) by (nonlinear_arith)
        requires
            radius > 0 as real,
    ;
    assert(d > radius) by (nonlinear_arith)
        requires
            d >= 0 as real,
            radius > 0 as real,
            d * d > radius * radius,
    ;
    let hard = to_unit(hardness);
    assert(radius * hard <= radius) by (nonlinear_arith)
        requires
            radius > 0 as real,
            hard <= 1 as real,
    ;
}

/// What a stamp leaves in a cell at the distance `d` from it.
pub open spec fn stamp_charge<R>(n: Numbers<R>, amp: real, dose: real, d: real, radius: real, hardness: real) -> real {
    amp * dose * profile_at(n, d, radius, hardness)
}

/// The distances of the cell `(y, x)` from the stamps.
pub open spec fn are_distances<R>(n: Numbers<R>, stamps: Seq<Sample<R>>, y: int, x: int, dist: spec_fn(int) -> real) -> bool {
    forall|k: int|
        0 <= k < stamps.len() ==> is_distance(
            #[trigger] dist(k),
            whole(y) - (n.val)(stamps[k].at[0]),
            whole(x) - (n.val)(stamps[k].at[1]),
        )
}

/// The stamps, and what they reach, lie within what the machine holds.
pub open spec fn stamps_in_range<R>(n: Numbers<R>, stamps: Seq<Sample<R>>, radius: real) -> bool {
    forall|k: int, axis: int|
        #![trigger stamps[k].at[axis]]
        0 <= k < stamps.len() && 0 <= axis < 2 ==> in_range((n.val)(stamps[k].at[axis]) - radius) && in_range(
            (n.val)(stamps[k].at[axis]) + radius,
        )
}

/// One stamp, in one cell of a patch.
proof fn lemma_one_stamp<P: Physics>(
    p: P,
    n: Numbers<P::Real>,
    e: Extent,
    radius: P::Real,
    hardness: P::Real,
    amp: P::Real,
    stamp: Sample<P::Real>,
    before: (Seq<P::Real>, Seq<P::Real>),
    after: (Seq<P::Real>, Seq<P::Real>),
    i: int,
    j: int,
    d: real,
)
    requires
        computes(p, n),
        e.fits(),
        stamped(p, e.y0(), e.x0(), e.height(), e.width(), radius, hardness, amp, stamp, before, after),
        0 <= i < e.height(),
        0 <= j < e.width(),
        (n.val)(radius) > 0 as real,
        is_distance(d, whole(e.y0() + i) - (n.val)(stamp.at[0]), whole(e.x0() + j) - (n.val)(stamp.at[1])),
        in_range((n.val)(stamp.at[0]) - (n.val)(radius)),
        in_range((n.val)(stamp.at[0]) + (n.val)(radius)),
        in_range((n.val)(stamp.at[1]) - (n.val)(radius)),
        in_range((n.val)(stamp.at[1]) + (n.val)(radius)),
    ensures
        ({
            let c = flat(e.width(), i, j);
            let a = profile_at(n, d, (n.val)(radius), (n.val)(hardness));
            &&& (n.val)(after.0[c]) == (n.val)(before.0[c]) + stamp_charge(
                n,
                (n.val)(amp),
                (n.val)(stamp.dose),
                d,
                (n.val)(radius),
                (n.val)(hardness),
            )
            &&& (n.val)(before.1[c]) >= 0 as real ==> (n.val)(after.1[c]) == larger((n.val)(before.1[c]), a)
        }),
{
    let (y0, x0, ph, pw) = (e.y0(), e.x0(), e.height(), e.width());
    let (r, hard) = ((n.val)(radius), (n.val)(hardness));
    let (ly, hy, lx, hx) = choose|ly: int, hy: int, lx: int, hx: int|
        #![trigger window(p, stamp.at[0], radius, y0, ph, ly, hy), window(p, stamp.at[1], radius, x0, pw, lx, hx)]
        window(p, stamp.at[0], radius, y0, ph, ly, hy) && window(p, stamp.at[1], radius, x0, pw, lx, hx) && inked_within(
            p,
            y0,
            x0,
            ph,
            pw,
            radius,
            hardness,
            amp,
            stamp,
            before,
            after,
            ly,
            hy,
            lx,
            hx,
        );
    let c = flat(pw, i, j);
    let (q0, c0, q1, c1) = (before.0[c], before.1[c], after.0[flat(pw, i, j)], after.1[flat(pw, i, j)]);
    let prof = profile_at(n, d, r, hard);
    if ly <= i < hy && lx <= j < hx {
        assert(cell_inked(p, y0 + i, x0 + j, radius, hardness, amp, stamp, q0, c0, q1, c1));
        let a = choose|a: P::Real|
            cover_is(p, y0 + i, x0 + j, stamp.at, radius, hardness, a) && #[trigger] inked(
                p,
                amp,
                stamp.dose,
                a,
                q0,
                c0,
                q1,
                c1,
            );
        let (y, x) = ((y0 + i) as i64, (x0 + j) as i64);
        assert(y as int == y0 + i && x as int == x0 + j);
        lemma_cover(p, n, y, x, stamp.at, radius, hardness, a, d);
        let (s, t, more) = choose|s: P::Real, t: P::Real, more: bool| #[trigger]
            inked_by(p, amp, stamp.dose, a, q0, c0, q1, c1, s, t, more);
    } else {
        if !(ly <= i < hy) {
            lemma_window(p, n, stamp.at[0], radius, y0, ph, ly, hy, i);
        } else {
            lemma_window(p, n, stamp.at[1], radius, x0, pw, lx, hx, j);
        }
        lemma_out_of_reach(n, d, whole(y0 + i) - (n.val)(stamp.at[0]), whole(x0 + j) - (n.val)(stamp.at[1]), r, hard);
        let lot = (n.val)(amp) * (n.val)(stamp.dose);
        assert(lot * (0 as real) == 0 as real) by (nonlinear_arith);
    }
}

/// The most that any of the first `k` stamps covers a cell.
pub open spec fn most_covered<R>(n: Numbers<R>, dist: spec_fn(int) -> real, radius: real, hardness: real, k: nat) -> real
    decreases k,
{
    if k == 0 {
        0 as real
    } else {
        larger(most_covered(n, dist, radius, hardness, (k - 1) as nat), profile_at(n, dist(k - 1), radius, hardness))
    }
}

proof fn lemma_stamps_add_up<P: Physics>(
    p: P,
    n: Numbers<P::Real>,
    e: Extent,
    radius: P::Real,
    hardness: P::Real,
    amp: P::Real,
    stamps: Seq<Sample<P::Real>>,
    states: Seq<(Seq<P::Real>, Seq<P::Real>)>,
    i: int,
    j: int,
    dist: spec_fn(int) -> real,
    k: nat,
)
    requires
        computes(p, n),
        e.fits(),
        stamped_in_turn(p, e, radius, hardness, amp, stamps, states),
        0 <= i < e.height(),
        0 <= j < e.width(),
        (n.val)(radius) > 0 as real,
        are_distances(n, stamps, e.y0() + i, e.x0() + j, dist),
        stamps_in_range(n, stamps, (n.val)(radius)),
        k <= stamps.len(),
    ensures
        ({
            let c = flat(e.width(), i, j);
            &&& (n.val)(states[k as int].0[c]) == tally(
                k as int,
                |l: int| stamp_charge(n, (n.val)(amp), (n.val)(stamps[l].dose), dist(l), (n.val)(radius), (n.val)(hardness)),
            )
            &&& (n.val)(states[k as int].1[c]) == most_covered(n, dist, (n.val)(radius), (n.val)(hardness), k)
            &&& (n.val)(states[k as int].1[c]) >= 0 as real
        }),
    decreases k,
{
    let c = flat(e.width(), i, j);
    lemma_flat_bound(e.height(), e.width(), i, j);
    if k == 0 {
        let z = choose|z: P::Real| #[trigger]
            call_ensures(P::zero, (&p,), z) && states[0].0 == Seq::new((e.height() * e.width()) as nat, |c: int| z) && states[0].1
                == states[0].0;
        assert(states[0].0[c] == z);
    } else {
        lemma_stamps_add_up(p, n, e, radius, hardness, amp, stamps, states, i, j, dist, (k - 1) as nat);
        let l = k - 1;
        let stamp = stamps[l];
        assert(in_range((n.val)(stamps[l].at[0]) - (n.val)(radius)) && in_range((n.val)(stamps[l].at[1]) - (n.val)(radius)));
        assert(is_distance(
            dist(l),
            whole(e.y0() + i) - (n.val)(stamps[l].at[0]),
            whole(e.x0() + j) - (n.val)(stamps[l].at[1]),
        ));
        lemma_one_stamp(p, n, e, radius, hardness, amp, stamp, states[l], states[l + 1], i, j, dist(l));
    }
}

/// The charge that a stroke leaves in a cell of its patch is the sum of what all
/// its stamps leave there, each by its dose and by how far it covers the cell; and
/// the cell is covered as far as the stamp that covers it most.
pub proof fn law_stamps_add_up<P: Physics>(
    p: P,
    n: Numbers<P::Real>,
    points: Vec<[P::Real; 2]>,
    brush: Brush<P::Real>,
    first: bool,
    stamps: Vec<Sample<P::Real>>,
    patch: StrokePatch<P::Real>,
    radius: real,
    amp: real,
    i: int,
    j: int,
    dist: spec_fn(int) -> real,
)
    requires
        computes(p, n),
        strokes_settled(p),
        call_ensures(stroke_samples::<P>, (&p, &points, first), stamps),
        call_ensures(stroke_patch::<P>, (&p, &points, &brush, first), Ok(Some(patch))),
        radius + radius == larger((n.val)(brush.thickness), 1 as real),
        amp * spread_over(n, radius, (n.val)(brush.hardness)) == (n.val)(brush.sign) * (n.val)(brush.magnitude) * (n.val)(
            brush.density,
        ) * (n.val)(brush.flow),
        0 <= i < patch.ph,
        0 <= j < patch.pw,
        are_distances(n, stamps@, patch.y0 + i, patch.x0 + j, dist),
        stamps_in_range(n, stamps@, radius),
    ensures
        ({
            let c = i * patch.pw + j;
            let hardness = (n.val)(brush.hardness);
            &&& (n.val)(patch.dq@[c]) == tally(
                stamps@.len() as int,
                |k: int| stamp_charge(n, amp, (n.val)(stamps@[k].dose), dist(k), radius, hardness),
            )
            &&& (n.val)(patch.cov@[c]) == most_covered(n, dist, radius, hardness, stamps@.len())
        }),
{
    let s = choose|s: Seq<Sample<P::Real>>| #[trigger]
        along(p, points@, first, points@.len(), s) && s.len() > 0 && (exists|radius: P::Real, e: Extent| #[trigger]
            outlined(p, brush, s, radius, e) && e.fits() && patched(p, brush, radius, e, s, patch));
    lemma_along_settled(p, points@, first, points@.len(), s, stamps@);
    let (r, e) = choose|radius: P::Real, e: Extent| #[trigger]
        outlined(p, brush, s, radius, e) && e.fits() && patched(p, brush, radius, e, s, patch);
    let (a, states) = choose|a: P::Real, states: Seq<(Seq<P::Real>, Seq<P::Real>)>|
        amplitude_is(p, brush, r, a) && #[trigger] stamped_in_turn(p, e, r, brush.hardness, a, s, states) && states.last() == (
        patch.dq@, patch.cov@);
    lemma_radius(p, n, brush.thickness, r);
    lemma_amplitude(p, n, brush, r, a);
    let over = spread_over(n, radius, (n.val)(brush.hardness));
    let av = (n.val)(a);
    assert(av == amp) by (nonlinear_arith)
        requires
            av * over == amp * over,
            over > 0 as real,
    ;
    lemma_stamps_add_up(p, n, e, r, brush.hardness, a, s, states, i, j, dist, s.len());
}

/// Where a path has no points, or one where no stroke starts, there is no patch;
/// anywhere else there is one, or the machine has no room for it.
pub proof fn law_strokes_with_stamps_have_a_patch<P: Physics>(
    p: P,
    points: Vec<[P::Real; 2]>,
    brush: Brush<P::Real>,
    first: bool,
    r: Result<Option<StrokePatch<P::Real>>, TooLarge>,
)
    requires
        call_ensures(stroke_patch::<P>, (&p, &points, &brush, first), r),
    ensures
        r matches Ok(None) <==> points@.len() == 0 || points@.len() == 1 && !first,
{
    let s = choose|s: Seq<Sample<P::Real>>| #[trigger]
        along(p, points@, first, points@.len(), s) && if s.len() == 0 {
            r == Ok::<Option<StrokePatch<P::Real>>, TooLarge>(None)
        } else {
            exists|radius: P::Real, e: Extent| #[trigger]
                outlined(p, brush, s, radius, e) && match r {
                    Ok(Some(patch)) => e.fits() && patched(p, brush, radius, e, s, patch),
                    Ok(None) => false,
                    Err(_) => !e.fits(),
                }
        };
    if points@.len() >= 2 {
        let m = points@.len();
        let k = choose|k: int|
            0 <= k <= s.len() && along(p, points@, first, (m - 1) as nat, #[trigger] s.take(k)) && leg(
                p,
                points@[m - 2],
                points@[m - 1],
                s.skip(k),
            );
        let (d, sp, q, c, all, dose) = choose|d: P::Real, sp: P::Real, q: P::Real, c: i64, all: P::Real, dose: P::Real| #[trigger]
            leg_by(p, points@[m - 2], points@[m - 1], s.skip(k), d, sp, q, c, all, dose);
        assert(s.skip(k).len() >= 1);
    }
}

/// The searches for the cells below and above all of some numbers find them.
proof fn lemma_all_between<P: Physics>(p: P, n: Numbers<P::Real>, vs: Seq<P::Real>, below: i64, above: i64, k: int)
    requires
        computes(p, n),
        cell_below(p, vs, below),
        cell_above(p, vs, above),
        0 <= k < vs.len(),
        forall|i: int| 0 <= i < vs.len() ==> in_range((n.val)(#[trigger] vs[i])),
    ensures
        whole(below as int) <= (n.val)(vs[k]) <= whole(above as int),
{
    let (start, least) = choose|start: P::Real, least: P::Real|
        call_ensures(P::highest, (&p,), start) && #[trigger] folded(lesser_step(p), start, vs, least) && call_ensures(
            P::floor,
            (&p, least),
            below,
        );
    let trace = choose|trace: Seq<P::Real>| #[trigger] partials(lesser_step(p), start, vs, trace) && trace.last() == least;
    lemma_least(p, n, vs, start, trace, vs.len(), k);
    let (begin, most) = choose|begin: P::Real, most: P::Real|
        call_ensures(P::lowest, (&p,), begin) && #[trigger] folded(greater_step(p), begin, vs, most) && call_ensures(
            P::ceil,
            (&p, most),
            above,
        );
    let other = choose|other: Seq<P::Real>| #[trigger] partials(greater_step(p), begin, vs, other) && other.last() == most;
    lemma_most(p, n, vs, begin, other, vs.len(), k);
}

proof fn lemma_least<P: Physics>(p: P, n: Numbers<P::Real>, vs: Seq<P::Real>, start: P::Real, trace: Seq<P::Real>, m: nat, k: int)
    requires
        computes(p, n),
        partials(lesser_step(p), start, vs, trace),
        call_ensures(P::highest, (&p,), start),
        0 <= k < m <= vs.len(),
        forall|i: int| 0 <= i < vs.len() ==> in_range((n.val)(#[trigger] vs[i])),
    ensures
        (n.val)(trace[m as int]) <= (n.val)(vs[k]),
        in_range((n.val)(trace[m as int])),
    decreases m,
{
    let v = vs[m - 1];
    assert(lesser_step(p)(trace[m - 1], v, trace[m as int]));
    assert(call_ensures(P::lesser, (&p, trace[m - 1], v), trace[m as int]));
    if m > 1 {
        lemma_least(p, n, vs, start, trace, (m - 1) as nat, if k < m - 1 {
            k
        } else {
            0
        });
    }
}

proof fn lemma_most<P: Physics>(p: P, n: Numbers<P::Real>, vs: Seq<P::Real>, start: P::Real, trace: Seq<P::Real>, m: nat, k: int)
    requires
        computes(p, n),
        partials(greater_step(p), start, vs, trace),
        call_ensures(P::lowest, (&p,), start),
        0 <= k < m <= vs.len(),
        forall|i: int| 0 <= i < vs.len() ==> in_range((n.val)(#[trigger] vs[i])),
    ensures
        (n.val)(trace[m as int]) >= (n.val)(vs[k]),
        in_range((n.val)(trace[m as int])),
    decreases m,
{
    let v = vs[m - 1];
    assert(greater_step(p)(trace[m - 1], v, trace[m as int]));
    assert(call_ensures(P::greater, (&p, trace[m - 1], v), trace[m as int]));
    if m > 1 {
        lemma_most(p, n, vs, start, trace, (m - 1) as nat, if k < m - 1 {
            k
        } else {
            0
        });
    }
}

/// Nothing of a stroke is cut off: no stamp covers a cell outside the patch.
pub proof fn law_nothing_is_cut_off<P: Physics>(
    p: P,
    n: Numbers<P::Real>,
    points: Vec<[P::Real; 2]>,
    brush: Brush<P::Real>,
    first: bool,
    stamps: Vec<Sample<P::Real>>,
    patch: StrokePatch<P::Real>,
    radius: real,
    y: int,
    x: int,
    k: int,
    d: real,
)
    requires
        computes(p, n),
        strokes_settled(p),
        call_ensures(stroke_samples::<P>, (&p, &points, first), stamps),
        call_ensures(stroke_patch::<P>, (&p, &points, &brush, first), Ok(Some(patch))),
        radius + radius == larger((n.val)(brush.thickness), 1 as real),
        in_range(radius),
        stamps_in_range(n, stamps@, radius),
        !(patch.y0 <= y < patch.y0 + patch.ph && patch.x0 <= x < patch.x0 + patch.pw),
        0 <= k < stamps@.len(),
        is_distance(d, whole(y) - (n.val)(stamps@[k].at[0]), whole(x) - (n.val)(stamps@[k].at[1])),
    ensures
        profile_at(n, d, radius, (n.val)(brush.hardness)) == 0 as real,
{
    let s = choose|s: Seq<Sample<P::Real>>| #[trigger]
        along(p, points@, first, points@.len(), s) && s.len() > 0 && (exists|radius: P::Real, e: Extent| #[trigger]
            outlined(p, brush, s, radius, e) && e.fits() && patched(p, brush, radius, e, s, patch));
    lemma_along_settled(p, points@, first, points@.len(), s, stamps@);
    let (r, e) = choose|radius: P::Real, e: Extent| #[trigger]
        outlined(p, brush, s, radius, e) && e.fits() && patched(p, brush, radius, e, s, patch);
    lemma_radius(p, n, brush.thickness, r);
    let (ys, xs) = (rows_of(s), columns_of(s));
    assert forall|i: int| 0 <= i < ys.len() implies in_range((n.val)(#[trigger] ys[i])) by {
        assert(in_range((n.val)(stamps@[i].at[0]) - radius));
    }
    assert forall|i: int| 0 <= i < xs.len() implies in_range((n.val)(#[trigger] xs[i])) by {
        assert(in_range((n.val)(stamps@[i].at[1]) - radius));
    }
    lemma_all_between(p, n, ys, e.top, e.bottom, k);
    lemma_all_between(p, n, xs, e.left, e.right, k);
    assert(ys[k] == s[k].at[0] && xs[k] == s[k].at[1]);
    assert(whole(e.pad as int) >= radius);
    let (dy, dx) = (whole(y) - (n.val)(s[k].at[0]), whole(x) - (n.val)(s[k].at[1]));
    if y < patch.y0 {
        assert(whole(y) < whole(e.top - e.pad));
    } else if y >= patch.y0 + patch.ph {
        assert(whole(y) > whole(e.bottom + e.pad));
    } else if x < patch.x0 {
        assert(whole(x) < whole(e.left - e.pad));
    } else {
        assert(whole(x) > whole(e.right + e.pad));
    }
    lemma_out_of_reach(n, d, dy, dx, radius, (n.val)(brush.hardness));
}

proof fn lemma_no_less<P: Physics>(p: P, n: Numbers<P::Real>, vs: Seq<P::Real>, start: P::Real, trace: Seq<P::Real>, m: nat, lo: real)
    requires
        computes(p, n),
        partials(lesser_step(p), start, vs, trace),
        call_ensures(P::highest, (&p,), start),
        m <= vs.len(),
        lo <= whole(i64::MAX as int),
        forall|i: int| 0 <= i < vs.len() ==> lo <= (n.val)(#[trigger] vs[i]),
    ensures
        lo <= (n.val)(trace[m as int]),
    decreases m,
{
    if m > 0 {
        lemma_no_less(p, n, vs, start, trace, (m - 1) as nat, lo);
        let v = vs[m - 1];
        assert(lesser_step(p)(trace[m - 1], v, trace[m as int]));
        assert(call_ensures(P::lesser, (&p, trace[m - 1], v), trace[m as int]));
    }
}

proof fn lemma_no_more<P: Physics>(p: P, n: Numbers<P::Real>, vs: Seq<P::Real>, start: P::Real, trace: Seq<P::Real>, m: nat, hi: real)
    requires
        computes(p, n),
        partials(greater_step(p), start, vs, trace),
        call_ensures(P::lowest, (&p,), start),
        m <= vs.len(),
        whole(i64::MIN as int) <= hi,
        forall|i: int| 0 <= i < vs.len() ==> (n.val)(#[trigger] vs[i]) <= hi,
    ensures
        (n.val)(trace[m as int]) <= hi,
    decreases m,
{
    if m > 0 {
        lemma_no_more(p, n, vs, start, trace, (m - 1) as nat, hi);
        let v = vs[m - 1];
        assert(greater_step(p)(trace[m - 1], v, trace[m as int]));
        assert(call_ensures(P::greater, (&p, trace[m - 1], v), trace[m as int]));
    }
}

/// The cells below and above all of some numbers are next to them.
proof fn lemma_all_near<P: Physics>(p: P, n: Numbers<P::Real>, vs: Seq<P::Real>, below: i64, above: i64, far: int)
    requires
        computes(p, n),
        cell_below(p, vs, below),
        cell_above(p, vs, above),
        vs.len() > 0,
        0 <= far <= 1_000_000,
        forall|i: int| 0 <= i < vs.len() ==> whole(-far) <= (n.val)(#[trigger] vs[i]) <= whole(far),
    ensures
        -far <= below <= above <= far,
{
    let (start, least) = choose|start: P::Real, least: P::Real|
        call_ensures(P::highest, (&p,), start) && #[trigger] folded(lesser_step(p), start, vs, least) && call_ensures(
            P::floor,
            (&p, least),
            below,
        );
    let trace = choose|trace: Seq<P::Real>| #[trigger] partials(lesser_step(p), start, vs, trace) && trace.last() == least;
    lemma_no_less(p, n, vs, start, trace, vs.len(), whole(-far));
    let (begin, most) = choose|begin: P::Real, most: P::Real|
        call_ensures(P::lowest, (&p,), begin) && #[trigger] folded(greater_step(p), begin, vs, most) && call_ensures(
            P::ceil,
            (&p, most),
            above,
        );
    let other = choose|other: Seq<P::Real>| #[trigger] partials(greater_step(p), begin, vs, other) && other.last() == most;
    lemma_no_more(p, n, vs, begin, other, vs.len(), whole(far));
    assert forall|i: int| 0 <= i < vs.len() implies in_range((n.val)(#[trigger] vs[i])) by {}
    lemma_least(p, n, vs, start, trace, vs.len(), 0);
    lemma_most(p, n, vs, begin, other, vs.len(), 0);
    assert(whole(-far) < whole(below + 1));
    assert(whole(above - 1) < whole(far));
}

/// A stroke that stays within sixteen thousand cells of the origin, with a brush no
/// wider than two thousand, is never refused.
pub proof fn law_ordinary_strokes_are_not_refused<P: Physics>(
    p: P,
    n: Numbers<P::Real>,
    points: Vec<[P::Real; 2]>,
    brush: Brush<P::Real>,
    first: bool,
    stamps: Vec<Sample<P::Real>>,
    r: Result<Option<StrokePatch<P::Real>>, TooLarge>,
)
    requires
        computes(p, n),
        strokes_settled(p),
        call_ensures(stroke_samples::<P>, (&p, &points, first), stamps),
        call_ensures(stroke_patch::<P>, (&p, &points, &brush, first), r),
        (n.val)(brush.thickness) <= whole(2000),
        forall|k: int, axis: int|
            #![trigger stamps@[k].at[axis]]
            0 <= k < stamps@.len() && 0 <= axis < 2 ==> whole(-16384) <= (n.val)(stamps@[k].at[axis]) <= whole(16384),
    ensures
        r is Ok,
{
    let s = choose|s: Seq<Sample<P::Real>>| #[trigger]
        along(p, points@, first, points@.len(), s) && if s.len() == 0 {
            r == Ok::<Option<StrokePatch<P::Real>>, TooLarge>(None)
        } else {
            exists|radius: P::Real, e: Extent| #[trigger]
                outlined(p, brush, s, radius, e) && match r {
                    Ok(Some(patch)) => e.fits() && patched(p, brush, radius, e, s, patch),
                    Ok(None) => false,
                    Err(_) => !e.fits(),
                }
        };
    lemma_along_settled(p, points@, first, points@.len(), s, stamps@);
    if s.len() > 0 {
        let (radius, e) = choose|radius: P::Real, e: Extent| #[trigger]
            outlined(p, brush, s, radius, e) && match r {
                Ok(Some(patch)) => e.fits() && patched(p, brush, radius, e, s, patch),
                Ok(None) => false,
                Err(_) => !e.fits(),
            };
        lemma_radius(p, n, brush.thickness, radius);
        let (ys, xs) = (rows_of(s), columns_of(s));
        assert forall|i: int| 0 <= i < ys.len() implies whole(-16384) <= (n.val)(#[trigger] ys[i]) <= whole(16384) by {
            assert(ys[i] == stamps@[i].at[0]);
        }
        assert forall|i: int| 0 <= i < xs.len() implies whole(-16384) <= (n.val)(#[trigger] xs[i]) <= whole(16384) by {
            assert(xs[i] == stamps@[i].at[1]);
        }
        lemma_all_near(p, n, ys, e.top, e.bottom, 16384);
        lemma_all_near(p, n, xs, e.left, e.right, 16384);
        let (h, w) = (e.height(), e.width());
        assert(0 <= e.pad <= 1000);
        assert(h * w <= 40000 * 40000) by (nonlinear_arith)
            requires
                0 <= h <= 40000,
                0 <= w <= 40000,
        ;
    }
}

/// A stroke that stays within a thousand cells of the origin, with a brush no wider
/// than a thousand cells whose potential reaches as far at most, is always painted.
pub proof fn law_ordinary_strokes_are_painted<P: Physics>(
    p: P,
    n: Numbers<P::Real>,
    sim: &mut Sim<P::Real>,
    points: Vec<[P::Real; 2]>,
    brush: Brush<P::Real>,
    first: bool,
    stamps: Vec<Sample<P::Real>>,
    r: Result<PaintReport<P::Real>, TooLarge>,
)
    requires
        computes(p, n),
        strokes_settled(p),
        old(sim).wf(),
        call_ensures(stroke_samples::<P>, (&p, &points, first), stamps),
        call_ensures(Sim::<P::Real>::paint_stroke::<P>, (sim, &p, &points, &brush, first), r),
        (n.val)(brush.thickness) <= whole(1000),
        forall|rp: usize| #[trigger] reach_is(p, brush.coupling, rp) ==> rp <= 1000,
        forall|k: int, axis: int|
            #![trigger stamps@[k].at[axis]]
            0 <= k < stamps@.len() && 0 <= axis < 2 ==> whole(-1000) <= (n.val)(stamps@[k].at[axis]) <= whole(1000),
    ensures
        r is Ok,
{
    let stroke = choose|stroke: Result<Option<StrokePatch<P::Real>>, TooLarge>| #[trigger]
        brushed(p, points@, brush, first, stroke) && match stroke {
            Err(_) => r is Err && *final(sim) == *old(sim),
            Ok(None) => *final(sim) == *old(sim) && r is Ok && blank_report(p, r->Ok_0),
            Ok(Some(patch)) => lays(p, *old(sim), *final(sim), patch, brush, first, r),
        };
    let s = choose|s: Seq<Sample<P::Real>>| #[trigger]
        along(p, points@, first, points@.len(), s) && if s.len() == 0 {
            stroke == Ok::<Option<StrokePatch<P::Real>>, TooLarge>(None)
        } else {
            exists|radius: P::Real, e: Extent| #[trigger]
                outlined(p, brush, s, radius, e) && match stroke {
                    Ok(Some(patch)) => e.fits() && patched(p, brush, radius, e, s, patch),
                    Ok(None) => false,
                    Err(_) => !e.fits(),
                }
        };
    lemma_along_settled(p, points@, first, points@.len(), s, stamps@);
    if s.len() > 0 {
        let (radius, e) = choose|radius: P::Real, e: Extent| #[trigger]
            outlined(p, brush, s, radius, e) && match stroke {
                Ok(Some(patch)) => e.fits() && patched(p, brush, radius, e, s, patch),
                Ok(None) => false,
                Err(_) => !e.fits(),
            };
        lemma_radius(p, n, brush.thickness, radius);
        let (ys, xs) = (rows_of(s), columns_of(s));
        assert forall|i: int| 0 <= i < ys.len() implies whole(-1000) <= (n.val)(#[trigger] ys[i]) <= whole(1000) by {
            assert(ys[i] == stamps@[i].at[0]);
        }
        assert forall|i: int| 0 <= i < xs.len() implies whole(-1000) <= (n.val)(#[trigger] xs[i]) <= whole(1000) by {
            assert(xs[i] == stamps@[i].at[1]);
        }
        lemma_all_near(p, n, ys, e.top, e.bottom, 1000);
        lemma_all_near(p, n, xs, e.left, e.right, 1000);
        assert(0 <= e.pad <= 500);
        let (h, w) = (e.height(), e.width());
        assert(h * w <= 4000 * 4000) by (nonlinear_arith)
            requires
                0 <= h <= 4000,
                0 <= w <= 4000,
        ;
        let patch = stroke->Ok_0->Some_0;
        if r is Err {
            let rp = choose|rp: usize| #[trigger] reach_is(p, brush.coupling, rp) && !cast_fits(patch, rp as int);
            law_ordinary_strokes_have_room(e, patch, rp as int);
        }
    }
}

} // verus!

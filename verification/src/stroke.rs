//! A brush stroke as a patch of charge and coverage.

use crate::fold::{fold_all, folded};
use crate::formulas::{amplitude, amplitude_is, cover, cover_is, radius_is, stamp_radius};
use crate::lattice::{flat, lemma_flat_bound, lemma_flat_injective};
use crate::physics::{Brush, Physics};
use crate::terms::stamp_count;
use vstd::prelude::*;

verus! {

/// A stamp of the brush: where it is centred, and its dose along the path.
#[derive(Debug, Clone, Copy)]
pub struct Sample<R> {
    pub at: [R; 2],
    pub dose: R,
}

/// `r` is as far from `a` to `b` as the share `t` of the way goes.
pub open spec fn on_axis<P: Physics>(p: P, a: P::Real, b: P::Real, t: P::Real, r: P::Real) -> bool {
    exists|d: P::Real, e: P::Real| #[trigger]
        call_ensures(P::times, (&p, d, t), e) && call_ensures(P::minus, (&p, b, a), d) && call_ensures(P::plus, (&p, a, e), r)
}

/// `at` is the point `k` of `m` parts of the way from `a` to `b`.
pub open spec fn between_is<P: Physics>(p: P, a: [P::Real; 2], b: [P::Real; 2], k: int, m: usize, at: [P::Real; 2]) -> bool {
    exists|t: P::Real| #[trigger]
        call_ensures(P::ratio, (&p, k as u64, m as u64), t) && on_axis(p, a[0], b[0], t, at[0]) && on_axis(p, a[1], b[1], t, at[1])
}

fn point_on_axis<P: Physics>(p: &P, a: P::Real, b: P::Real, t: P::Real) -> (r: P::Real)
    ensures
        on_axis(*p, a, b, t, r),
{
    let d = p.minus(b, a);
    let e = p.times(d, t);
    assert(call_ensures(P::times, (p, d, t), e));
    p.plus(a, e)
}

/// The point `k` of `m` parts of the way from `a` to `b`.
fn point_between<P: Physics>(p: &P, a: [P::Real; 2], b: [P::Real; 2], k: usize, m: usize) -> (at: [P::Real; 2])
    ensures
        between_is(*p, a, b, k as int, m, at),
{
    let t = p.ratio(k as u64, m as u64);
    assert(call_ensures(P::ratio, (p, k as u64, m as u64), t));
    let (y, x) = (point_on_axis(p, a[0], b[0], t), point_on_axis(p, a[1], b[1], t));
    [y, x]
}

/// `stamps` lie along the way from `a` to `b`, evenly spaced up to `b` itself,
/// one at least.
pub open spec fn leg<P: Physics>(p: P, a: [P::Real; 2], b: [P::Real; 2], stamps: Seq<Sample<P::Real>>) -> bool {
    exists|d: P::Real, s: P::Real, q: P::Real, c: i64, all: P::Real, dose: P::Real| #[trigger]
        leg_by(p, a, b, stamps, d, s, q, c, all, dose)
}

pub open spec fn leg_by<P: Physics>(
    p: P,
    a: [P::Real; 2],
    b: [P::Real; 2],
    stamps: Seq<Sample<P::Real>>,
    d: P::Real,
    s: P::Real,
    q: P::Real,
    c: i64,
    all: P::Real,
    dose: P::Real,
) -> bool {
    let m = stamp_count(c);
    &&& call_ensures(P::way, (&p, a, b), d)
    &&& call_ensures(P::spacing, (&p,), s)
    &&& call_ensures(P::quotient, (&p, d, s), q)
    &&& call_ensures(P::ceil, (&p, q), c)
    &&& call_ensures(P::greater, (&p, d, s), all)
    &&& call_ensures(P::share, (&p, all, m), dose)
    &&& stamps.len() == m
    &&& forall|k: int| 0 <= k < m ==> (#[trigger] stamps[k]).dose == dose && between_is(p, a, b, k + 1, m, stamps[k].at)
}

/// `stamps` lie along the first `n` of `points`; the first point itself is
/// stamped if the stroke starts there.
pub open spec fn along<P: Physics>(p: P, points: Seq<[P::Real; 2]>, first: bool, n: nat, stamps: Seq<Sample<P::Real>>) -> bool
    decreases n,
{
    if n == 0 || n == 1 && !first {
        stamps.len() == 0
    } else if n == 1 {
        stamps.len() == 1 && stamps[0].at == points[0] && call_ensures(P::spacing, (&p,), stamps[0].dose)
    } else {
        exists|k: int|
            0 <= k <= stamps.len() && along(p, points, first, (n - 1) as nat, #[trigger] stamps.take(k)) && leg(
                p,
                points[n - 2],
                points[n - 1],
                stamps.skip(k),
            )
    }
}

/// The stamps along a polyline.
pub fn stroke_samples<P: Physics>(p: &P, points: &Vec<[P::Real; 2]>, first: bool) -> (stamps: Vec<Sample<P::Real>>)
    ensures
        along(*p, points@, first, points@.len(), stamps@),
{
    let mut stamps: Vec<Sample<P::Real>> = Vec::new();
    if points.len() == 0 {
        return stamps;
    }
    if first {
        stamps.push(Sample { at: points[0], dose: p.spacing() });
    }
    let mut i: usize = 1;
    while i < points.len()
        invariant
            1 <= i <= points@.len(),
            along(*p, points@, first, i as nat, stamps@),
        decreases points@.len() - i,
    {
        let (a, b) = (points[i - 1], points[i]);
        let d = p.way(a, b);
        let s = p.spacing();
        let q = p.quotient(d, s);
        let c = p.ceil(q);
        let m: usize = if c <= 1 {
            1
        } else if c as u64 <= usize::MAX as u64 {
            c as usize
        } else {
            usize::MAX
        };
        let all = p.greater(d, s);
        let dose = p.share(all, m);
        let ghost before = stamps@;
        let mut k: usize = 0;
        while k < m
            invariant
                k <= m,
                stamps@.len() == before.len() + k,
                stamps@.take(before.len() as int) =~= before,
                forall|l: int|
                    0 <= l < k ==> (#[trigger] stamps@.skip(before.len() as int)[l]).dose == dose && between_is(
                        *p,
                        a,
                        b,
                        l + 1,
                        m,
                        stamps@.skip(before.len() as int)[l].at,
                    ),
            decreases m - k,
        {
            let at = point_between(p, a, b, k + 1, m);
            let ghost old = stamps@;
            stamps.push(Sample { at, dose });
            assert forall|l: int| 0 <= l < k + 1 implies (#[trigger] stamps@.skip(before.len() as int)[l]).dose == dose
                && between_is(*p, a, b, l + 1, m, stamps@.skip(before.len() as int)[l].at) by {
                if l < k {
                    assert(stamps@.skip(before.len() as int)[l] == old.skip(before.len() as int)[l]);
                }
            }
            k = k + 1;
        }
        proof {
            assert(leg_by(*p, a, b, stamps@.skip(before.len() as int), d, s, q, c, all, dose));
            assert(along(*p, points@, first, i as nat, stamps@.take(before.len() as int)));
        }
        i = i + 1;
    }
    stamps
}

/// How far the stamps of a stroke reach: the cells around the outermost of
/// their centres, and the cells that a radius spans.
#[derive(Debug)]
pub struct Extent {
    pub top: i64,
    pub bottom: i64,
    pub left: i64,
    pub right: i64,
    pub pad: i64,
}

impl Extent {
    pub open spec fn y0(self) -> int {
        self.top - (self.pad + 1)
    }

    pub open spec fn x0(self) -> int {
        self.left - (self.pad + 1)
    }

    pub open spec fn height(self) -> int {
        self.bottom + self.pad + 2 - self.y0()
    }

    pub open spec fn width(self) -> int {
        self.right + self.pad + 2 - self.x0()
    }

    /// The box that holds all stamps fits the machine.
    pub open spec fn fits(self) -> bool {
        &&& i64::MIN <= self.y0()
        &&& i64::MIN <= self.x0()
        &&& self.pad < i64::MAX
        &&& self.bottom + self.pad + 2 <= i64::MAX
        &&& self.right + self.pad + 2 <= i64::MAX
        &&& 0 <= self.height() <= i64::MAX
        &&& 0 <= self.width() <= i64::MAX
        &&& self.height() * self.width() <= usize::MAX
        &&& self.height() <= usize::MAX
        &&& self.width() <= usize::MAX
    }

    /// The box that holds all stamps as corner, height and width, if it fits
    /// the machine.
    pub fn corner(&self) -> (r: Option<(i64, i64, usize, usize)>)
        ensures
            match r {
                Some((y0, x0, ph, pw)) => {
                    &&& self.fits()
                    &&& y0 == self.y0()
                    &&& x0 == self.x0()
                    &&& ph == self.height()
                    &&& pw == self.width()
                },
                None => !self.fits(),
            },
    {
        let pad: i128 = self.pad as i128;
        let y0: i128 = self.top as i128 - (pad + 1);
        let x0: i128 = self.left as i128 - (pad + 1);
        let y1: i128 = self.bottom as i128 + pad + 2;
        let x1: i128 = self.right as i128 + pad + 2;
        let (ph, pw) = (y1 - y0, x1 - x0);
        let low: i128 = i64::MIN as i128;
        let high: i128 = i64::MAX as i128;
        if y0 < low || x0 < low || pad >= high || y1 > high || x1 > high || ph < 0 || ph > high || pw < 0 || pw > high {
            return None;
        }
        let most: i128 = usize::MAX as i128;
        if ph > most || pw > most {
            return None;
        }
        proof {
            assert(0 <= ph * pw <= 0xffff_ffff_ffff_ffff * 0x7fff_ffff_ffff_ffff) by (nonlinear_arith)
                requires
                    0 <= ph <= 0xffff_ffff_ffff_ffff,
                    0 <= pw <= 0x7fff_ffff_ffff_ffff,
            ;
        }
        if ph * pw > most {
            return None;
        }
        Some((y0 as i64, x0 as i64, ph as usize, pw as usize))
    }
}

/// The lesser of two numbers so far.
pub open spec fn lesser_step<P: Physics>(p: P) -> spec_fn(P::Real, P::Real, P::Real) -> bool {
    |a: P::Real, b: P::Real, r: P::Real| call_ensures(P::lesser, (&p, a, b), r)
}

/// The greater of two numbers so far.
pub open spec fn greater_step<P: Physics>(p: P) -> spec_fn(P::Real, P::Real, P::Real) -> bool {
    |a: P::Real, b: P::Real, r: P::Real| call_ensures(P::greater, (&p, a, b), r)
}

/// `c` is the cell below the least of `vs`.
pub open spec fn cell_below<P: Physics>(p: P, vs: Seq<P::Real>, c: i64) -> bool {
    exists|start: P::Real, least: P::Real|
        call_ensures(P::highest, (&p,), start) && #[trigger] folded(lesser_step(p), start, vs, least) && call_ensures(
            P::floor,
            (&p, least),
            c,
        )
}

/// `c` is the cell above the greatest of `vs`.
pub open spec fn cell_above<P: Physics>(p: P, vs: Seq<P::Real>, c: i64) -> bool {
    exists|start: P::Real, most: P::Real|
        call_ensures(P::lowest, (&p,), start) && #[trigger] folded(greater_step(p), start, vs, most) && call_ensures(
            P::ceil,
            (&p, most),
            c,
        )
}

pub open spec fn rows_of<R>(stamps: Seq<Sample<R>>) -> Seq<R> {
    stamps.map_values(|s: Sample<R>| s.at[0])
}

pub open spec fn columns_of<R>(stamps: Seq<Sample<R>>) -> Seq<R> {
    stamps.map_values(|s: Sample<R>| s.at[1])
}

fn floor_of_least<P: Physics>(p: &P, vs: &Vec<P::Real>) -> (c: i64)
    ensures
        cell_below(*p, vs@, c),
{
    let start = p.highest();
    let f = |a: P::Real, b: P::Real| -> (r: P::Real)
        ensures
            call_ensures(P::lesser, (p, a, b), r),
        { p.lesser(a, b) };
    let least = fold_all(&f, start, vs, Ghost(lesser_step(*p)));
    p.floor(least)
}

fn ceil_of_greatest<P: Physics>(p: &P, vs: &Vec<P::Real>) -> (c: i64)
    ensures
        cell_above(*p, vs@, c),
{
    let start = p.lowest();
    let f = |a: P::Real, b: P::Real| -> (r: P::Real)
        ensures
            call_ensures(P::greater, (p, a, b), r),
        { p.greater(a, b) };
    let most = fold_all(&f, start, vs, Ghost(greater_step(*p)));
    p.ceil(most)
}

/// How far stamps of a given radius reach.
pub fn stroke_extent<P: Physics>(p: &P, stamps: &Vec<Sample<P::Real>>, radius: P::Real) -> (e: Extent)
    ensures
        cell_below(*p, rows_of(stamps@), e.top),
        cell_above(*p, rows_of(stamps@), e.bottom),
        cell_below(*p, columns_of(stamps@), e.left),
        cell_above(*p, columns_of(stamps@), e.right),
        call_ensures(P::ceil, (p, radius), e.pad),
{
    let mut ys: Vec<P::Real> = Vec::with_capacity(stamps.len());
    let mut xs: Vec<P::Real> = Vec::with_capacity(stamps.len());
    let mut i: usize = 0;
    while i < stamps.len()
        invariant
            i <= stamps@.len(),
            ys@ =~= rows_of(stamps@).take(i as int),
            xs@ =~= columns_of(stamps@).take(i as int),
        decreases stamps@.len() - i,
    {
        ys.push(stamps[i].at[0]);
        xs.push(stamps[i].at[1]);
        i = i + 1;
    }
    assert(ys@ =~= rows_of(stamps@));
    assert(xs@ =~= columns_of(stamps@));
    let pad = p.ceil(radius);
    Extent {
        top: floor_of_least(p, &ys),
        bottom: ceil_of_greatest(p, &ys),
        left: floor_of_least(p, &xs),
        right: ceil_of_greatest(p, &xs),
        pad,
    }
}

/// A patch of the paint layer: its corner and sides, the charge that it adds
/// and how far each cell is covered.
#[derive(Debug)]
pub struct StrokePatch<R> {
    pub y0: i64,
    pub x0: i64,
    pub ph: usize,
    pub pw: usize,
    pub dq: Vec<R>,
    pub cov: Vec<R>,
}

impl<R> StrokePatch<R> {
    pub open spec fn wf(self) -> bool {
        &&& self.ph <= i64::MAX
        &&& self.pw <= i64::MAX
        &&& self.y0 + self.ph <= i64::MAX
        &&& self.x0 + self.pw <= i64::MAX
        &&& self.dq@.len() == self.ph * self.pw
        &&& self.cov@.len() == self.ph * self.pw
    }
}

/// Lines `lo..hi` of a patch of `n` lines, the first of them lattice line `at`,
/// are those within `radius` of `centre`.
pub open spec fn window<P: Physics>(p: P, centre: P::Real, radius: P::Real, at: int, n: int, lo: int, hi: int) -> bool {
    exists|near: P::Real, far: P::Real, a: i64, b: i64| #[trigger]
        window_by(p, centre, radius, at, n, lo, hi, near, far, a, b)
}

pub open spec fn window_by<P: Physics>(
    p: P,
    centre: P::Real,
    radius: P::Real,
    at: int,
    n: int,
    lo: int,
    hi: int,
    near: P::Real,
    far: P::Real,
    a: i64,
    b: i64,
) -> bool {
    &&& call_ensures(P::minus, (&p, centre, radius), near)
    &&& call_ensures(P::plus, (&p, centre, radius), far)
    &&& call_ensures(P::floor, (&p, near), a)
    &&& call_ensures(P::ceil, (&p, far), b)
    &&& lo == (if a - at > 0 {
        a - at
    } else {
        0
    })
    &&& hi == (if 0 <= b + 1 - at < n {
        b + 1 - at
    } else {
        n
    })
}

fn window_of<P: Physics>(p: &P, centre: P::Real, radius: P::Real, at: i64, n: usize) -> (r: (usize, usize))
    requires
        n <= i64::MAX,
    ensures
        exists|lo: int, hi: int| #[trigger]
            window(*p, centre, radius, at as int, n as int, lo, hi) && r.1 == hi <= n && (if lo <= n {
                r.0 == lo
            } else {
                r.0 == n
            }),
{
    let near = p.minus(centre, radius);
    let far = p.plus(centre, radius);
    let a = p.floor(near);
    let b = p.ceil(far);
    let from: i128 = a as i128 - at as i128;
    let to: i128 = b as i128 + 1 - at as i128;
    let lo: i128 = if from > 0 { from } else { 0 };
    let hi: i128 = if 0 <= to && to < n as i128 { to } else { n as i128 };
    proof {
        assert(window_by(*p, centre, radius, at as int, n as int, lo as int, hi as int, near, far, a, b));
        assert(window(*p, centre, radius, at as int, n as int, lo as int, hi as int));
    }
    (if lo <= n as i128 { lo as usize } else { n }, hi as usize)
}

/// What one stamp that covers a cell by `a` does to the cell's charge and
/// coverage.
pub open spec fn inked<P: Physics>(
    p: P,
    amp: P::Real,
    dose: P::Real,
    a: P::Real,
    q0: P::Real,
    c0: P::Real,
    q1: P::Real,
    c1: P::Real,
) -> bool {
    exists|s: P::Real, t: P::Real, more: bool| #[trigger] inked_by(p, amp, dose, a, q0, c0, q1, c1, s, t, more)
}

pub open spec fn inked_by<P: Physics>(
    p: P,
    amp: P::Real,
    dose: P::Real,
    a: P::Real,
    q0: P::Real,
    c0: P::Real,
    q1: P::Real,
    c1: P::Real,
    s: P::Real,
    t: P::Real,
    more: bool,
) -> bool {
    &&& call_ensures(P::times, (&p, amp, dose), s)
    &&& call_ensures(P::times, (&p, s, a), t)
    &&& call_ensures(P::plus, (&p, q0, t), q1)
    &&& call_ensures(P::exceeds, (&p, a, c0), more)
    &&& c1 == (if more {
        a
    } else {
        c0
    })
}

/// One stamp is laid into a patch: the cells within its windows are inked, the
/// others are left.
pub open spec fn stamped<P: Physics>(
    p: P,
    y0: int,
    x0: int,
    ph: int,
    pw: int,
    radius: P::Real,
    hardness: P::Real,
    amp: P::Real,
    stamp: Sample<P::Real>,
    before: (Seq<P::Real>, Seq<P::Real>),
    after: (Seq<P::Real>, Seq<P::Real>),
) -> bool {
    exists|ly: int, hy: int, lx: int, hx: int|
        #![trigger window(p, stamp.at[0], radius, y0, ph, ly, hy), window(p, stamp.at[1], radius, x0, pw, lx, hx)]
        window(p, stamp.at[0], radius, y0, ph, ly, hy) && window(p, stamp.at[1], radius, x0, pw, lx, hx) && inked_within(
            p,
            y0,
            x0,
            ph,
            pw,
            radius,
            hardness,
            amp,
            stamp,
            before,
            after,
            ly,
            hy,
            lx,
            hx,
        )
}

pub open spec fn inked_within<P: Physics>(
    p: P,
    y0: int,
    x0: int,
    ph: int,
    pw: int,
    radius: P::Real,
    hardness: P::Real,
    amp: P::Real,
    stamp: Sample<P::Real>,
    before: (Seq<P::Real>, Seq<P::Real>),
    after: (Seq<P::Real>, Seq<P::Real>),
    ly: int,
    hy: int,
    lx: int,
    hx: int,
) -> bool {
    &&& after.0.len() == ph * pw
    &&& after.1.len() == ph * pw
    &&& forall|y: int, x: int|
        #![trigger after.0[flat(pw, y, x)]]
        #![trigger after.1[flat(pw, y, x)]]
        0 <= y < ph && 0 <= x < pw ==> {
            let c = flat(pw, y, x);
            if ly <= y < hy && lx <= x < hx {
                cell_inked(p, y0 + y, x0 + x, radius, hardness, amp, stamp, before.0[c], before.1[c], after.0[c], after.1[c])
            } else {
                after.0[c] == before.0[c] && after.1[c] == before.1[c]
            }
        }
}

/// A stamp inks the cell `(y, x)`.
pub open spec fn cell_inked<P: Physics>(
    p: P,
    y: int,
    x: int,
    radius: P::Real,
    hardness: P::Real,
    amp: P::Real,
    stamp: Sample<P::Real>,
    q0: P::Real,
    c0: P::Real,
    q1: P::Real,
    c1: P::Real,
) -> bool {
    exists|a: P::Real|
        cover_is(p, y, x, stamp.at, radius, hardness, a) && #[trigger] inked(
            p,
            amp,
            stamp.dose,
            a,
            q0,
            c0,
            q1,
            c1,
        )
}

/// The charge and coverage of a patch as stamp after stamp is laid into it:
/// `states[k]` is how it looks after the first `k`.
pub open spec fn stamped_in_turn<P: Physics>(
    p: P,
    e: Extent,
    radius: P::Real,
    hardness: P::Real,
    amp: P::Real,
    stamps: Seq<Sample<P::Real>>,
    states: Seq<(Seq<P::Real>, Seq<P::Real>)>,
) -> bool {
    &&& states.len() == stamps.len() + 1
    &&& exists|z: P::Real| #[trigger]
        call_ensures(P::zero, (&p,), z) && states[0].0 == Seq::new((e.height() * e.width()) as nat, |c: int| z) && states[0].1
            == states[0].0
    &&& forall|k: int|
        #![trigger stamps[k]]
        0 <= k < stamps.len() ==> stamped(
            p,
            e.y0(),
            e.x0(),
            e.height(),
            e.width(),
            radius,
            hardness,
            amp,
            stamps[k],
            states[k],
            states[k + 1],
        )
}

/// The patch that a brush's stamps make: every stamp laid in its turn into a
/// box that holds them all.
pub open spec fn patched<P: Physics>(
    p: P,
    brush: Brush<P::Real>,
    radius: P::Real,
    e: Extent,
    stamps: Seq<Sample<P::Real>>,
    patch: StrokePatch<P::Real>,
) -> bool {
    &&& patch.y0 == e.y0()
    &&& patch.x0 == e.x0()
    &&& patch.ph == e.height()
    &&& patch.pw == e.width()
    &&& exists|amp: P::Real, states: Seq<(Seq<P::Real>, Seq<P::Real>)>|
        amplitude_is(p, brush, radius, amp) && #[trigger] stamped_in_turn(
            p,
            e,
            radius,
            brush.hardness,
            amp,
            stamps,
            states,
        ) && states.last() == (patch.dq@, patch.cov@)
}

fn lay_stamp<P: Physics>(
    p: &P,
    patch: &mut StrokePatch<P::Real>,
    radius: P::Real,
    hardness: P::Real,
    amp: P::Real,
    stamp: Sample<P::Real>,
)
    requires
        old(patch).wf(),
    ensures
        final(patch).y0 == old(patch).y0,
        final(patch).x0 == old(patch).x0,
        final(patch).ph == old(patch).ph,
        final(patch).pw == old(patch).pw,
        final(patch).wf(),
        stamped(
            *p,
            old(patch).y0 as int,
            old(patch).x0 as int,
            old(patch).ph as int,
            old(patch).pw as int,
            radius,
            hardness,
            amp,
            stamp,
            (old(patch).dq@, old(patch).cov@),
            (final(patch).dq@, final(patch).cov@),
        ),
{
    let (y0, x0, ph, pw) = (patch.y0, patch.x0, patch.ph, patch.pw);
    let (iy0, iy1) = window_of(p, stamp.at[0], radius, y0, ph);
    let (ix0, ix1) = window_of(p, stamp.at[1], radius, x0, pw);
    let ghost (q, c) = (patch.dq@, patch.cov@);
    let cells = patch.dq.len();
    let mut iy: usize = iy0;
    while iy < iy1
        invariant
            iy0 <= iy,
            iy1 <= ph,
            ix1 <= pw,
            iy <= iy1 || iy == iy0,
            patch.wf(),
            patch.y0 == y0,
            patch.x0 == x0,
            patch.ph == ph,
            patch.pw == pw,
            cells == ph * pw,
            forall|y: int, x: int|
                #![trigger patch.dq@[flat(pw as int, y, x)]]
                #![trigger patch.cov@[flat(pw as int, y, x)]]
                0 <= y < ph && 0 <= x < pw ==> {
                    let i = flat(pw as int, y, x);
                    if iy0 <= y < iy && ix0 <= x < ix1 {
                        cell_inked(*p, y0 + y, x0 + x, radius, hardness, amp, stamp, q[i], c[i], patch.dq@[i], patch.cov@[i])
                    } else {
                        patch.dq@[i] == q[i] && patch.cov@[i] == c[i]
                    }
                },
        decreases iy1 - iy,
    {
        let mut ix: usize = ix0;
        while ix < ix1
            invariant
                iy0 <= iy < iy1,
                ix0 <= ix,
                ix <= ix1 || ix == ix0,
                iy1 <= ph,
                ix1 <= pw,
                patch.wf(),
                patch.y0 == y0,
                patch.x0 == x0,
                patch.ph == ph,
                patch.pw == pw,
                cells == ph * pw,
                forall|y: int, x: int|
                    #![trigger patch.dq@[flat(pw as int, y, x)]]
                    #![trigger patch.cov@[flat(pw as int, y, x)]]
                    0 <= y < ph && 0 <= x < pw ==> {
                        let i = flat(pw as int, y, x);
                        if (iy0 <= y < iy && ix0 <= x < ix1) || (y == iy && ix0 <= x < ix) {
                            cell_inked(*p, y0 + y, x0 + x, radius, hardness, amp, stamp, q[i], c[i], patch.dq@[i], patch.cov@[i])
                        } else {
                            patch.dq@[i] == q[i] && patch.cov@[i] == c[i]
                        }
                    },
            decreases ix1 - ix,
        {
            proof {
                lemma_flat_bound(ph as int, pw as int, iy as int, ix as int);
            }
            let i = iy * pw + ix;
            assert(i == flat(pw as int, iy as int, ix as int));
            let ghost (q0, c0) = (patch.dq@, patch.cov@);
            let a = cover(p, y0 + iy as i64, x0 + ix as i64, stamp.at, radius, hardness);
            let s = p.times(amp, stamp.dose);
            let t = p.times(s, a);
            let charge = p.plus(patch.dq[i], t);
            let under = patch.cov[i];
            let more = p.exceeds(a, under);
            let cover = if more { a } else { under };
            patch.dq.set(i, charge);
            patch.cov.set(i, cover);
            proof {
                assert(q0[i as int] == q[i as int] && c0[i as int] == c[i as int]);
                assert(inked_by(*p, amp, stamp.dose, a, q[i as int], c[i as int], charge, cover, s, t, more));
                assert(inked(*p, amp, stamp.dose, a, q[i as int], c[i as int], charge, cover));
                assert forall|y: int, x: int|
                    #![trigger patch.dq@[flat(pw as int, y, x)]]
                    #![trigger patch.cov@[flat(pw as int, y, x)]]
                    0 <= y < ph && 0 <= x < pw implies {
                    let i = flat(pw as int, y, x);
                    if (iy0 <= y < iy && ix0 <= x < ix1) || (y == iy && ix0 <= x < ix + 1) {
                        cell_inked(*p, y0 + y, x0 + x, radius, hardness, amp, stamp, q[i], c[i], patch.dq@[i], patch.cov@[i])
                    } else {
                        patch.dq@[i] == q[i] && patch.cov@[i] == c[i]
                    }
                } by {
                    lemma_flat_bound(ph as int, pw as int, y, x);
                    if !(y == iy && x == ix) {
                        if flat(pw as int, y, x) == i {
                            lemma_flat_injective(pw as int, y, x, iy as int, ix as int);
                        }
                        assert(q0[flat(pw as int, y, x)] == patch.dq@[flat(pw as int, y, x)]);
                        assert(c0[flat(pw as int, y, x)] == patch.cov@[flat(pw as int, y, x)]);
                    }
                }
            }
            ix = ix + 1;
        }
        iy = iy + 1;
    }
    proof {
        let (ly, hy) = choose|lo: int, hi: int| #[trigger]
            window(*p, stamp.at[0], radius, y0 as int, ph as int, lo, hi) && iy1 == hi <= ph && (if lo <= ph {
                iy0 == lo
            } else {
                iy0 == ph
            });
        let (lx, hx) = choose|lo: int, hi: int| #[trigger]
            window(*p, stamp.at[1], radius, x0 as int, pw as int, lo, hi) && ix1 == hi <= pw && (if lo <= pw {
                ix0 == lo
            } else {
                ix0 == pw
            });
        assert(inked_within(
            *p,
            y0 as int,
            x0 as int,
            ph as int,
            pw as int,
            radius,
            hardness,
            amp,
            stamp,
            (q, c),
            (patch.dq@, patch.cov@),
            ly,
            hy,
            lx,
            hx,
        ));
    }
}

/// A store of `n` cells that all hold `v`.
pub fn filled<T: Copy>(v: T, n: usize) -> (cells: Vec<T>)
    ensures
        cells@ == Seq::new(n as nat, |c: int| v),
{
    let mut cells: Vec<T> = Vec::with_capacity(n);
    let mut i: usize = 0;
    while i < n
        invariant
            i <= n,
            cells@ =~= Seq::new(i as nat, |c: int| v),
        decreases n - i,
    {
        cells.push(v);
        i = i + 1;
    }
    cells
}

/// Lays all stamps of a stroke into a patch.
pub fn stamp_patch<P: Physics>(
    p: &P,
    brush: &Brush<P::Real>,
    radius: P::Real,
    e: &Extent,
    stamps: &Vec<Sample<P::Real>>,
) -> (patch: Option<StrokePatch<P::Real>>)
    ensures
        patch is Some <==> e.fits(),
        patch matches Some(patch) ==> patch.wf() && patched(*p, *brush, radius, *e, stamps@, patch),
{
    let (y0, x0, ph, pw) = match e.corner() {
        Some(c) => c,
        None => {
            return None;
        },
    };
    let zero = p.zero();
    let amp = amplitude(p, brush, radius);
    let mut patch = StrokePatch { y0, x0, ph, pw, dq: filled(zero, ph * pw), cov: filled(zero, ph * pw) };
    let ghost mut states = seq![(patch.dq@, patch.cov@)];
    assert(call_ensures(P::zero, (p,), zero));
    let mut k: usize = 0;
    while k < stamps.len()
        invariant
            k <= stamps@.len(),
            e.fits(),
            patch.wf(),
            patch.y0 == e.y0(),
            patch.x0 == e.x0(),
            patch.ph == e.height(),
            patch.pw == e.width(),
            states.last() == (patch.dq@, patch.cov@),
            stamped_in_turn(*p, *e, radius, brush.hardness, amp, stamps@.take(k as int), states),
        decreases stamps@.len() - k,
    {
        lay_stamp(p, &mut patch, radius, brush.hardness, amp, stamps[k]);
        proof {
            let longer = states.push((patch.dq@, patch.cov@));
            let more = stamps@.take(k + 1);
            assert forall|i: int| #![trigger more[i]] 0 <= i < more.len() implies stamped(
                *p,
                e.y0(),
                e.x0(),
                e.height(),
                e.width(),
                radius,
                brush.hardness,
                amp,
                more[i],
                longer[i],
                longer[i + 1],
            ) by {
                if i < k {
                    assert(more[i] == stamps@.take(k as int)[i]);
                }
            }
            states = longer;
        }
        k = k + 1;
    }
    assert(stamps@.take(k as int) =~= stamps@);
    assert(stamped_in_turn(*p, *e, radius, brush.hardness, amp, stamps@, states));
    Some(patch)
}

/// The outline of stamps of a brush: their radius, and how far they reach.
pub open spec fn outlined<P: Physics>(p: P, brush: Brush<P::Real>, stamps: Seq<Sample<P::Real>>, radius: P::Real, e: Extent) -> bool {
    &&& radius_is(p, brush.thickness, radius)
    &&& cell_below(p, rows_of(stamps), e.top)
    &&& cell_above(p, rows_of(stamps), e.bottom)
    &&& cell_below(p, columns_of(stamps), e.left)
    &&& cell_above(p, columns_of(stamps), e.right)
    &&& call_ensures(P::ceil, (&p, radius), e.pad)
}

/// A stroke reaches over more cells than the machine has room for.
#[derive(Debug, Clone, Copy, PartialEq, Eq, Structural)]
pub struct TooLarge;

/// `r` is what a stroke of the brush along `points` comes to.
pub open spec fn brushed<P: Physics>(
    p: P,
    points: Seq<[P::Real; 2]>,
    brush: Brush<P::Real>,
    first: bool,
    r: Result<Option<StrokePatch<P::Real>>, TooLarge>,
) -> bool {
    exists|stamps: Seq<Sample<P::Real>>| #[trigger]
        along(p, points, first, points.len(), stamps) && if stamps.len() == 0 {
            r == Ok::<Option<StrokePatch<P::Real>>, TooLarge>(None)
        } else {
            exists|radius: P::Real, e: Extent| #[trigger]
                outlined(p, brush, stamps, radius, e) && match r {
                    Ok(Some(patch)) => e.fits() && patched(p, brush, radius, e, stamps, patch),
                    Ok(None) => false,
                    Err(_) => !e.fits(),
                }
        }
}

/// The patch of a stroke along `points`, nothing if it has no stamps.
pub fn stroke_patch<P: Physics>(p: &P, points: &Vec<[P::Real; 2]>, brush: &Brush<P::Real>, first: bool) -> (r: Result<
    Option<StrokePatch<P::Real>>,
    TooLarge,
>)
    ensures
        brushed(*p, points@, *brush, first, r),
        r matches Ok(Some(patch)) ==> patch.wf(),
{
    let stamps = stroke_samples(p, points, first);
    if stamps.len() == 0 {
        return Ok(None);
    }
    let radius = stamp_radius(p, brush.thickness);
    let e = stroke_extent(p, &stamps, radius);
    assert(outlined(*p, *brush, stamps@, radius, e));
    match stamp_patch(p, brush, radius, &e, &stamps) {
        Some(patch) => Ok(Some(patch)),
        None => Err(TooLarge),
    }
}

} // verus!

//! The terms that the formulas of the gas are made of.

use crate::physics::Physics;
use vstd::prelude::*;

verus! {

/// A cell that a line covers by `cov` is closed, where lines close cells: more
/// than half of it is covered.
pub open spec fn solid_is<P: Physics>(p: P, cov: P::Real, closed: bool) -> bool {
    exists|half: P::Real| #[trigger] call_ensures(P::exceeds, (&p, cov, half), closed) && call_ensures(P::half, (&p,), half)
}

pub fn solid<P: Physics>(p: &P, cov: P::Real) -> (closed: bool)
    ensures
        solid_is(*p, cov, closed),
{
    let half = p.half();
    let closed = p.exceeds(cov, half);
    assert(call_ensures(P::exceeds, (p, cov, half), closed));
    closed
}

/// `r` is one with the sign of `v`.
pub open spec fn unit_sign_is<P: Physics>(p: P, v: P::Real, r: P::Real) -> bool {
    exists|zero: P::Real, one: P::Real, up: bool| #[trigger] unit_sign_by(p, v, r, zero, one, up)
}

pub open spec fn unit_sign_by<P: Physics>(p: P, v: P::Real, r: P::Real, zero: P::Real, one: P::Real, up: bool) -> bool {
    &&& call_ensures(P::zero, (&p,), zero)
    &&& call_ensures(P::one, (&p,), one)
    &&& call_ensures(P::at_most, (&p, zero, v), up)
    &&& if up {
        r == one
    } else {
        call_ensures(P::minus, (&p, zero, one), r)
    }
}

pub fn unit_sign<P: Physics>(p: &P, v: P::Real) -> (r: P::Real)
    ensures
        unit_sign_is(*p, v, r),
{
    let zero = p.zero();
    let one = p.one();
    let up = p.at_most(zero, v);
    let r = if up { one } else { p.minus(zero, one) };
    assert(unit_sign_by(*p, v, r, zero, one, up));
    r
}

/// `r` is `v`, or zero where `v` is smaller than the noise of earlier sums.
pub open spec fn snap_is<P: Physics>(p: P, v: P::Real, r: P::Real) -> bool {
    exists|noise: P::Real, size: P::Real, lost: bool| #[trigger] snap_by(p, v, r, noise, size, lost)
}

pub open spec fn snap_by<P: Physics>(p: P, v: P::Real, r: P::Real, noise: P::Real, size: P::Real, lost: bool) -> bool {
    &&& call_ensures(P::noise, (&p,), noise)
    &&& call_ensures(P::size, (&p, v), size)
    &&& call_ensures(P::exceeds, (&p, noise, size), lost)
    &&& if lost {
        call_ensures(P::zero, (&p,), r)
    } else {
        r == v
    }
}

pub fn snap<P: Physics>(p: &P, v: P::Real) -> (r: P::Real)
    ensures
        snap_is(*p, v, r),
{
    let noise = p.noise();
    let size = p.size(v);
    let lost = p.exceeds(noise, size);
    let r = if lost { p.zero() } else { v };
    assert(snap_by(*p, v, r, noise, size, lost));
    r
}

/// `r` is the number between zero and one that is closest to `v`.
pub open spec fn clamp_is<P: Physics>(p: P, v: P::Real, r: P::Real) -> bool {
    exists|zero: P::Real, one: P::Real, below: bool, above: bool| #[trigger] clamp_by(p, v, r, zero, one, below, above)
}

pub open spec fn clamp_by<P: Physics>(
    p: P,
    v: P::Real,
    r: P::Real,
    zero: P::Real,
    one: P::Real,
    below: bool,
    above: bool,
) -> bool {
    &&& call_ensures(P::zero, (&p,), zero)
    &&& call_ensures(P::one, (&p,), one)
    &&& call_ensures(P::exceeds, (&p, zero, v), below)
    &&& call_ensures(P::exceeds, (&p, v, one), above)
    &&& r == (if below {
        zero
    } else if above {
        one
    } else {
        v
    })
}

pub fn clamp_unit<P: Physics>(p: &P, v: P::Real) -> (r: P::Real)
    ensures
        clamp_is(*p, v, r),
{
    let zero = p.zero();
    let one = p.one();
    let below = p.exceeds(zero, v);
    let above = p.exceeds(v, one);
    let r = if below {
        zero
    } else if above {
        one
    } else {
        v
    };
    assert(clamp_by(*p, v, r, zero, one, below, above));
    r
}

/// `c` as a number of cells or stamps, one at least.
pub open spec fn stamp_count(c: i64) -> usize {
    if c <= 1 {
        1
    } else if c <= usize::MAX {
        c as usize
    } else {
        usize::MAX
    }
}

/// `rc` is how many whole cells a radius spans, one at least.
pub open spec fn reach_is<P: Physics>(p: P, radius: P::Real, rc: usize) -> bool {
    exists|c: i64| #[trigger] call_ensures(P::ceil, (&p, radius), c) && rc == stamp_count(c)
}

pub fn reach<P: Physics>(p: &P, radius: P::Real) -> (rc: usize)
    ensures
        reach_is(*p, radius, rc),
{
    let c = p.ceil(radius);
    assert(call_ensures(P::ceil, (p, radius), c));
    if c <= 1 {
        1
    } else if c as u128 <= usize::MAX as u128 {
        c as usize
    } else {
        usize::MAX
    }
}

/// Whether a distance with the square `r2` is longer than `cutoff` is `far`.
pub open spec fn beyond_is<P: Physics>(p: P, r2: i64, cutoff: P::Real, far: bool) -> bool {
    exists|r: P::Real| #[trigger] call_ensures(P::exceeds, (&p, r, cutoff), far) && call_ensures(P::root, (&p, r2), r)
}

pub fn beyond<P: Physics>(p: &P, r2: i64, cutoff: P::Real) -> (far: bool)
    ensures
        beyond_is(*p, r2, cutoff, far),
{
    let r = p.root(r2);
    let far = p.exceeds(r, cutoff);
    assert(call_ensures(P::exceeds, (p, r, cutoff), far));
    far
}

/// `u` is `v` over a distance with the square `r2`.
pub open spec fn over_distance_is<P: Physics>(p: P, v: P::Real, r2: i64, u: P::Real) -> bool {
    exists|r: P::Real| #[trigger] call_ensures(P::quotient, (&p, v, r), u) && call_ensures(P::root, (&p, r2), r)
}

pub fn over_distance<P: Physics>(p: &P, v: P::Real, r2: i64) -> (u: P::Real)
    ensures
        over_distance_is(*p, v, r2, u),
{
    let r = p.root(r2);
    let u = p.quotient(v, r);
    assert(call_ensures(P::quotient, (p, v, r), u));
    u
}

/// `f` is how far something falls off exponentially, by the length `length`,
/// over a distance with the square `r2`.
pub open spec fn decay_is<P: Physics>(p: P, r2: i64, length: P::Real, f: P::Real) -> bool {
    exists|zero: P::Real, r: P::Real, back: P::Real, x: P::Real| #[trigger] decay_by(p, r2, length, f, zero, r, back, x)
}

pub open spec fn decay_by<P: Physics>(
    p: P,
    r2: i64,
    length: P::Real,
    f: P::Real,
    zero: P::Real,
    r: P::Real,
    back: P::Real,
    x: P::Real,
) -> bool {
    &&& call_ensures(P::zero, (&p,), zero)
    &&& call_ensures(P::root, (&p, r2), r)
    &&& call_ensures(P::minus, (&p, zero, r), back)
    &&& call_ensures(P::quotient, (&p, back, length), x)
    &&& call_ensures(P::exponential, (&p, x), f)
}

pub fn decay<P: Physics>(p: &P, r2: i64, length: P::Real) -> (f: P::Real)
    ensures
        decay_is(*p, r2, length, f),
{
    let zero = p.zero();
    let r = p.root(r2);
    let back = p.minus(zero, r);
    let x = p.quotient(back, length);
    let f = p.exponential(x);
    assert(decay_by(*p, r2, length, f, zero, r, back, x));
    f
}

/// `f` is how far something falls off at `d`, like a cosine, from one at `inner`
/// to zero at `outer`.
pub open spec fn cosine_fall_is<P: Physics>(p: P, d: P::Real, inner: P::Real, outer: P::Real, f: P::Real) -> bool {
    exists|a: P::Real, b: P::Real, t: P::Real, pi: P::Real, angle: P::Real, c: P::Real| #[trigger]
        cosine_fall_by(p, d, inner, outer, f, a, b, t, pi, angle, c)
}

pub open spec fn cosine_fall_by<P: Physics>(
    p: P,
    d: P::Real,
    inner: P::Real,
    outer: P::Real,
    f: P::Real,
    a: P::Real,
    b: P::Real,
    t: P::Real,
    pi: P::Real,
    angle: P::Real,
    c: P::Real,
) -> bool {
    &&& call_ensures(P::minus, (&p, d, inner), a)
    &&& call_ensures(P::minus, (&p, outer, inner), b)
    &&& call_ensures(P::quotient, (&p, a, b), t)
    &&& call_ensures(P::pi, (&p,), pi)
    &&& call_ensures(P::times, (&p, pi, t), angle)
    &&& call_ensures(P::cosine, (&p, angle), c)
    &&& raised_is(p, c, f)
}

/// `f` is half of one more than `c`.
pub open spec fn raised_is<P: Physics>(p: P, c: P::Real, f: P::Real) -> bool {
    exists|half: P::Real, one: P::Real, more: P::Real| #[trigger]
        call_ensures(P::times, (&p, half, more), f) && #[trigger] call_ensures(P::plus, (&p, one, c), more) && call_ensures(
            P::half,
            (&p,),
            half,
        ) && call_ensures(P::one, (&p,), one)
}

pub fn cosine_fall<P: Physics>(p: &P, d: P::Real, inner: P::Real, outer: P::Real) -> (f: P::Real)
    ensures
        cosine_fall_is(*p, d, inner, outer, f),
{
    let a = p.minus(d, inner);
    let b = p.minus(outer, inner);
    let t = p.quotient(a, b);
    let pi = p.pi();
    let angle = p.times(pi, t);
    let c = p.cosine(angle);
    let half = p.half();
    let one = p.one();
    let more = p.plus(one, c);
    let f = p.times(half, more);
    assert(call_ensures(P::times, (p, half, more), f));
    assert(call_ensures(P::plus, (p, one, c), more));
    assert(cosine_fall_by(*p, d, inner, outer, f, a, b, t, pi, angle, c));
    f
}

} // verus!

//! The potentials of the gas, put together from the operations at hand.

use crate::physics::{Brush, Params, Physics};
use crate::terms::{beyond, beyond_is, clamp_is, clamp_unit, cosine_fall, cosine_fall_is, decay, decay_is, over_distance, over_distance_is};
use vstd::prelude::*;

verus! {

/// `v` is the bare repulsion at a distance with square `r2`, screened where
/// there is a screening length.
pub open spec fn repels<P: Physics>(p: P, r2: int, strength: P::Real, screening: P::Real, v: P::Real) -> bool {
    exists|bare: P::Real, zero: P::Real, screened: bool| #[trigger]
        repels_by(p, r2, strength, screening, v, bare, zero, screened)
}

pub open spec fn repels_by<P: Physics>(
    p: P,
    r2: int,
    strength: P::Real,
    screening: P::Real,
    v: P::Real,
    bare: P::Real,
    zero: P::Real,
    screened: bool,
) -> bool {
    &&& over_distance_is(p, strength, r2 as i64, bare)
    &&& call_ensures(P::zero, (&p,), zero)
    &&& call_ensures(P::exceeds, (&p, screening, zero), screened)
    &&& if screened {
        damped(p, bare, r2, screening, v)
    } else {
        v == bare
    }
}

/// `v` is `a` damped over a distance with square `r2` by the length `length`.
pub open spec fn damped<P: Physics>(p: P, a: P::Real, r2: int, length: P::Real, v: P::Real) -> bool {
    exists|f: P::Real| #[trigger] call_ensures(P::times, (&p, a, f), v) && decay_is(p, r2 as i64, length, f)
}

/// There is a well of short-range attraction.
pub open spec fn has_well<P: Physics>(p: P, params: Params<P::Real>, well: bool) -> bool {
    exists|flat: bool, zero: P::Real, wide: bool| #[trigger] has_well_by(p, params, well, flat, zero, wide)
}

pub open spec fn has_well_by<P: Physics>(p: P, params: Params<P::Real>, well: bool, flat: bool, zero: P::Real, wide: bool) -> bool {
    &&& call_ensures(P::vanishes, (&p, params.attract_depth), flat)
    &&& call_ensures(P::zero, (&p,), zero)
    &&& call_ensures(P::exceeds, (&p, params.attract_range, zero), wide)
    &&& well == (!flat && wide)
}

/// `v` is what `a` comes to once the well is taken off it.
pub open spec fn deepened<P: Physics>(p: P, a: P::Real, r2: int, params: Params<P::Real>, v: P::Real) -> bool {
    exists|w: P::Real| #[trigger]
        call_ensures(P::minus, (&p, a, w), v) && damped(p, params.attract_depth, r2, params.attract_range, w)
}

/// `v` is the potential between two charges at a distance with square `r2`:
/// nothing at no distance and beyond the cutoff, and else the screened
/// repulsion, with the well taken off it where one is asked for.
pub open spec fn potential_is<P: Physics>(p: P, r2: int, params: Params<P::Real>, attractive: bool, v: P::Real) -> bool {
    if r2 <= 0 {
        call_ensures(P::zero, (&p,), v)
    } else {
        exists|far: bool| #[trigger]
            beyond_is(p, r2 as i64, params.cutoff, far) && if far {
                call_ensures(P::zero, (&p,), v)
            } else {
                exists|a: P::Real| #[trigger]
                    repels(p, r2, params.strength, params.screening, a) && if attractive {
                        exists|well: bool| #[trigger]
                            has_well(p, params, well) && if well {
                                deepened(p, a, r2, params, v)
                            } else {
                                v == a
                            }
                    } else {
                        v == a
                    }
            }
    }
}

fn repulsion<P: Physics>(p: &P, r2: i64, strength: P::Real, screening: P::Real) -> (v: P::Real)
    ensures
        repels(*p, r2 as int, strength, screening, v),
{
    let bare = over_distance(p, strength, r2);
    let zero = p.zero();
    let screened = p.exceeds(screening, zero);
    let v = if screened {
        let f = decay(p, r2, screening);
        let v = p.times(bare, f);
        assert(call_ensures(P::times, (p, bare, f), v));
        v
    } else {
        bare
    };
    assert(repels_by(*p, r2 as int, strength, screening, v, bare, zero, screened));
    v
}

/// The potential between two charges at a distance with square `r2`.
pub fn potential<P: Physics>(p: &P, r2: i64, params: &Params<P::Real>, attractive: bool) -> (v: P::Real)
    ensures
        potential_is(*p, r2 as int, *params, attractive, v),
{
    if r2 <= 0 {
        return p.zero();
    }
    let far = beyond(p, r2, params.cutoff);
    assert(beyond_is(*p, (r2 as int) as i64, params.cutoff, far));
    if far {
        let none = p.zero();
        assert(call_ensures(P::zero, (p,), none));
        return none;
    }
    let a = repulsion(p, r2, params.strength, params.screening);
    assert(repels(*p, r2 as int, params.strength, params.screening, a));
    if !attractive {
        return a;
    }
    let flat = p.vanishes(params.attract_depth);
    let zero = p.zero();
    let wide = p.exceeds(params.attract_range, zero);
    let well = !flat && wide;
    assert(has_well_by(*p, *params, well, flat, zero, wide));
    assert(has_well(*p, *params, well));
    if !well {
        return a;
    }
    let f = decay(p, r2, params.attract_range);
    let w = p.times(params.attract_depth, f);
    assert(call_ensures(P::times, (p, params.attract_depth, f), w));
    assert(damped(*p, params.attract_depth, r2 as int, params.attract_range, w));
    let v = p.minus(a, w);
    assert(call_ensures(P::minus, (p, a, w), v));
    v
}

/// `a` is how far a round profile of the given radius covers a point at the
/// distance `d` from its centre: whole within the hard part, nothing outside,
/// and in between falling off like a cosine.
pub open spec fn alpha_is<P: Physics>(p: P, d: P::Real, radius: P::Real, hardness: P::Real, a: P::Real) -> bool {
    exists|hard: P::Real, inner: P::Real, within: bool, outside: bool, soft: bool| #[trigger]
        alpha_by(p, d, radius, hardness, a, hard, inner, within, outside, soft)
}

pub open spec fn alpha_by<P: Physics>(
    p: P,
    d: P::Real,
    radius: P::Real,
    hardness: P::Real,
    a: P::Real,
    hard: P::Real,
    inner: P::Real,
    within: bool,
    outside: bool,
    soft: bool,
) -> bool {
    &&& clamp_is(p, hardness, hard)
    &&& call_ensures(P::times, (&p, radius, hard), inner)
    &&& call_ensures(P::at_most, (&p, d, inner), within)
    &&& call_ensures(P::at_most, (&p, radius, d), outside)
    &&& call_ensures(P::exceeds, (&p, radius, inner), soft)
    &&& if within {
        call_ensures(P::one, (&p,), a)
    } else if outside || !soft {
        call_ensures(P::zero, (&p,), a)
    } else {
        cosine_fall_is(p, d, inner, radius, a)
    }
}

/// How far a round profile covers a point at the distance `d` from its centre.
pub fn radial_alpha_at<P: Physics>(p: &P, d: P::Real, radius: P::Real, hardness: P::Real) -> (a: P::Real)
    ensures
        alpha_is(*p, d, radius, hardness, a),
{
    let hard = clamp_unit(p, hardness);
    let inner = p.times(radius, hard);
    let within = p.at_most(d, inner);
    let outside = p.at_most(radius, d);
    let soft = p.exceeds(radius, inner);
    let a = if within {
        p.one()
    } else if outside || !soft {
        p.zero()
    } else {
        cosine_fall(p, d, inner, radius)
    };
    assert(alpha_by(*p, d, radius, hardness, a, hard, inner, within, outside, soft));
    a
}

/// `v` is the potential that a painted cell casts at a distance with square
/// `r2`: nothing at no distance and beyond the coupling radius, and else the
/// screened repulsion, tapered off towards that radius.
pub open spec fn casts<P: Physics>(
    p: P,
    r2: int,
    strength: P::Real,
    screening: P::Real,
    coupling: P::Real,
    hardness: P::Real,
    v: P::Real,
) -> bool {
    if r2 <= 0 {
        call_ensures(P::zero, (&p,), v)
    } else {
        exists|far: bool| #[trigger]
            beyond_is(p, r2 as i64, coupling, far) && if far {
                call_ensures(P::zero, (&p,), v)
            } else {
                exists|a: P::Real, f: P::Real| #[trigger]
                    call_ensures(P::times, (&p, a, f), v) && repels(p, r2, strength, screening, a) && tapered(
                        p,
                        r2,
                        coupling,
                        hardness,
                        f,
                    )
            }
    }
}

/// `f` is the taper at a distance with square `r2`.
pub open spec fn tapered<P: Physics>(p: P, r2: int, coupling: P::Real, hardness: P::Real, f: P::Real) -> bool {
    exists|r: P::Real| #[trigger] alpha_is(p, r, coupling, hardness, f) && call_ensures(P::root, (&p, r2 as i64), r)
}

/// The potential that a painted cell casts at a distance with square `r2`.
pub fn casting<P: Physics>(
    p: &P,
    r2: i64,
    strength: P::Real,
    screening: P::Real,
    coupling: P::Real,
    hardness: P::Real,
) -> (v: P::Real)
    ensures
        casts(*p, r2 as int, strength, screening, coupling, hardness, v),
{
    if r2 <= 0 {
        return p.zero();
    }
    let far = beyond(p, r2, coupling);
    assert(beyond_is(*p, (r2 as int) as i64, coupling, far));
    if far {
        let v = p.zero();
        assert(casts(*p, r2 as int, strength, screening, coupling, hardness, v));
        return v;
    }
    let a = repulsion(p, r2, strength, screening);
    let r = p.root(r2);
    let f = radial_alpha_at(p, r, coupling, hardness);
    assert(alpha_is(*p, r, coupling, hardness, f));
    let v = p.times(a, f);
    assert(call_ensures(P::times, (p, a, f), v));
    v
}

/// `a` is how far a stamp centred at `at` covers cell `(y, x)`.
pub open spec fn cover_is<P: Physics>(p: P, y: int, x: int, at: [P::Real; 2], radius: P::Real, hardness: P::Real, a: P::Real) -> bool {
    exists|d: P::Real| #[trigger]
        alpha_is(p, d, radius, hardness, a) && call_ensures(P::distance, (&p, y as i64, x as i64, at), d)
}

/// How far a stamp centred at `at` covers cell `(y, x)`.
pub fn cover<P: Physics>(p: &P, y: i64, x: i64, at: [P::Real; 2], radius: P::Real, hardness: P::Real) -> (a: P::Real)
    ensures
        cover_is(*p, y as int, x as int, at, radius, hardness, a),
{
    let d = p.distance(y, x, at);
    let a = radial_alpha_at(p, d, radius, hardness);
    assert(alpha_is(*p, d, radius, hardness, a));
    a
}

/// `e` is an energy put together from a pair term, which is weighed by the
/// square of the charge, and a term that is weighed by the charge.
pub open spec fn weighed<P: Physics>(p: P, square: P::Real, pair: P::Real, charge: P::Real, single: P::Real, e: P::Real) -> bool {
    exists|a: P::Real, b: P::Real| #[trigger]
        call_ensures(P::plus, (&p, a, b), e) && call_ensures(P::times, (&p, square, pair), a) && call_ensures(
            P::times,
            (&p, charge, single),
            b,
        )
}

/// `de` is the energy that moves cost, from the interaction energies after and
/// before and the change of the fixed potential under the movers.
pub open spec fn move_energy_is<P: Physics>(p: P, charge: P::Real, e_new: P::Real, e_old: P::Real, du: P::Real, de: P::Real) -> bool {
    exists|square: P::Real, change: P::Real| #[trigger]
        weighed(p, square, change, charge, du, de) && call_ensures(P::times, (&p, charge, charge), square) && call_ensures(
            P::minus,
            (&p, e_new, e_old),
            change,
        )
}

/// The energy that moves cost.
pub fn move_energy<P: Physics>(p: &P, charge: P::Real, e_new: P::Real, e_old: P::Real, du: P::Real) -> (de: P::Real)
    ensures
        move_energy_is(*p, charge, e_new, e_old, du, de),
{
    let square = p.times(charge, charge);
    let change = p.minus(e_new, e_old);
    let a = p.times(square, change);
    let b = p.times(charge, du);
    let de = p.plus(a, b);
    assert(call_ensures(P::plus, (p, a, b), de));
    assert(weighed(*p, square, change, charge, du, de));
    de
}

/// `e` is the energy of the gas, from the interaction summed over all ordered
/// pairs, of which each pair of particles makes two, and the fixed potential
/// summed over the particles.
pub open spec fn total_is<P: Physics>(p: P, charge: P::Real, e_mm: P::Real, e_edge: P::Real, e: P::Real) -> bool {
    exists|half: P::Real, part: P::Real, square: P::Real| #[trigger] total_by(p, charge, e_mm, e_edge, e, half, part, square)
}

pub open spec fn total_by<P: Physics>(
    p: P,
    charge: P::Real,
    e_mm: P::Real,
    e_edge: P::Real,
    e: P::Real,
    half: P::Real,
    part: P::Real,
    square: P::Real,
) -> bool {
    &&& call_ensures(P::half, (&p,), half)
    &&& call_ensures(P::times, (&p, half, charge), part)
    &&& call_ensures(P::times, (&p, part, charge), square)
    &&& weighed(p, square, e_mm, charge, e_edge, e)
}

/// The energy of the gas.
pub fn total<P: Physics>(p: &P, charge: P::Real, e_mm: P::Real, e_edge: P::Real) -> (e: P::Real)
    ensures
        total_is(*p, charge, e_mm, e_edge, e),
{
    let half = p.half();
    let part = p.times(half, charge);
    let square = p.times(part, charge);
    let a = p.times(square, e_mm);
    let b = p.times(charge, e_edge);
    let e = p.plus(a, b);
    assert(call_ensures(P::plus, (p, a, b), e));
    assert(total_by(*p, charge, e_mm, e_edge, e, half, part, square));
    e
}

/// Moves that cost `de` lead downhill, or along.
pub open spec fn downhill_is<P: Physics>(p: P, de: P::Real, down: bool) -> bool {
    exists|zero: P::Real| #[trigger] call_ensures(P::at_most, (&p, de, zero), down) && call_ensures(P::zero, (&p,), zero)
}

/// Whether moves that cost `de` lead downhill, or along.
pub fn downhill<P: Physics>(p: &P, de: P::Real) -> (down: bool)
    ensures
        downhill_is(*p, de, down),
{
    let zero = p.zero();
    let down = p.at_most(de, zero);
    assert(call_ensures(P::at_most, (p, de, zero), down));
    down
}

/// `kt` is the energy that goes with a temperature.
pub open spec fn thermal_is<P: Physics>(p: P, temperature: P::Real, kt: P::Real) -> bool {
    exists|least: P::Real, warm: P::Real, kb: P::Real| #[trigger] thermal_by(p, temperature, kt, least, warm, kb)
}

pub open spec fn thermal_by<P: Physics>(p: P, temperature: P::Real, kt: P::Real, least: P::Real, warm: P::Real, kb: P::Real) -> bool {
    &&& call_ensures(P::least_temperature, (&p,), least)
    &&& call_ensures(P::greater, (&p, temperature, least), warm)
    &&& call_ensures(P::boltzmann_constant, (&p,), kb)
    &&& call_ensures(P::times, (&p, kb, warm), kt)
}

/// The energy that goes with a temperature.
pub fn thermal<P: Physics>(p: &P, temperature: P::Real) -> (kt: P::Real)
    ensures
        thermal_is(*p, temperature, kt),
{
    let least = p.least_temperature();
    let warm = p.greater(temperature, least);
    let kb = p.boltzmann_constant();
    let kt = p.times(kb, warm);
    assert(thermal_by(*p, temperature, kt, least, warm, kb));
    kt
}

/// `beta` is the inverse of the energy that goes with a temperature.
pub open spec fn coldness_is<P: Physics>(p: P, temperature: P::Real, beta: P::Real) -> bool {
    exists|one: P::Real, kt: P::Real| #[trigger]
        call_ensures(P::quotient, (&p, one, kt), beta) && call_ensures(P::one, (&p,), one) && thermal_is(p, temperature, kt)
}

/// The inverse of the energy that goes with a temperature.
pub fn coldness<P: Physics>(p: &P, temperature: P::Real) -> (beta: P::Real)
    ensures
        coldness_is(*p, temperature, beta),
{
    let kt = thermal(p, temperature);
    let one = p.one();
    let beta = p.quotient(one, kt);
    assert(call_ensures(P::quotient, (p, one, kt), beta));
    beta
}

/// `odds` are those of moves that cost `de` at the thermal energy `kt`, where
/// they cost anything.
pub open spec fn odds_are<P: Physics>(p: P, de: P::Real, kt: P::Real, odds: P::Real) -> bool {
    exists|zero: P::Real, gain: P::Real, x: P::Real| #[trigger] odds_by(p, de, kt, odds, zero, gain, x)
}

pub open spec fn odds_by<P: Physics>(p: P, de: P::Real, kt: P::Real, odds: P::Real, zero: P::Real, gain: P::Real, x: P::Real) -> bool {
    &&& call_ensures(P::zero, (&p,), zero)
    &&& call_ensures(P::minus, (&p, zero, de), gain)
    &&& call_ensures(P::quotient, (&p, gain, kt), x)
    &&& call_ensures(P::exponential, (&p, x), odds)
}

/// The odds of moves that cost `de`.
pub fn boltzmann<P: Physics>(p: &P, de: P::Real, kt: P::Real) -> (odds: P::Real)
    ensures
        odds_are(*p, de, kt, odds),
{
    let zero = p.zero();
    let gain = p.minus(zero, de);
    let x = p.quotient(gain, kt);
    let odds = p.exponential(x);
    assert(odds_by(*p, de, kt, odds, zero, gain, x));
    odds
}

/// The random `word` lets moves pass that cost `de`: the number that it stands
/// for is below the odds.
pub open spec fn lucky_is<P: Physics>(p: P, de: P::Real, temperature: P::Real, word: u64, passes: bool) -> bool {
    exists|kt: P::Real, r: P::Real, odds: P::Real| #[trigger] lucky_by(p, de, temperature, word, passes, kt, r, odds)
}

pub open spec fn lucky_by<P: Physics>(
    p: P,
    de: P::Real,
    temperature: P::Real,
    word: u64,
    passes: bool,
    kt: P::Real,
    r: P::Real,
    odds: P::Real,
) -> bool {
    &&& thermal_is(p, temperature, kt)
    &&& call_ensures(P::uniform, (&p, word), r)
    &&& odds_are(p, de, kt, odds)
    &&& call_ensures(P::exceeds, (&p, odds, r), passes)
}

/// Whether the random `word` lets moves pass that cost `de`.
pub fn lucky<P: Physics>(p: &P, de: P::Real, temperature: P::Real, word: u64) -> (passes: bool)
    ensures
        lucky_is(*p, de, temperature, word, passes),
{
    let kt = thermal(p, temperature);
    let r = p.uniform(word);
    let odds = boltzmann(p, de, kt);
    let passes = p.exceeds(odds, r);
    assert(lucky_by(*p, de, temperature, word, passes, kt, r, odds));
    passes
}

/// `r` is how many moves are made per second, if `done` iterations of `batch`
/// moves take `seconds`.
pub open spec fn pace_is<P: Physics>(p: P, done: u64, batch: usize, seconds: P::Real, r: P::Real) -> bool {
    exists|a: P::Real, b: P::Real, moves: P::Real| #[trigger]
        call_ensures(P::times, (&p, a, b), moves) && call_ensures(P::count, (&p, done), a) && call_ensures(
            P::count,
            (&p, batch as u64),
            b,
        ) && call_ensures(P::quotient, (&p, moves, seconds), r)
}

/// How many moves are made per second.
pub fn pace<P: Physics>(p: &P, done: u64, batch: usize, seconds: P::Real) -> (r: P::Real)
    ensures
        pace_is(*p, done, batch, seconds, r),
{
    let a = p.count(done);
    let b = p.count(batch as u64);
    let moves = p.times(a, b);
    assert(call_ensures(P::times, (p, a, b), moves));
    p.quotient(moves, seconds)
}

/// `r` is the radius of a stamp of a brush so thick: half of that, and half a
/// cell at least.
pub open spec fn radius_is<P: Physics>(p: P, thickness: P::Real, r: P::Real) -> bool {
    exists|half: P::Real, plain: P::Real| #[trigger]
        call_ensures(P::greater, (&p, plain, half), r) && call_ensures(P::half, (&p,), half) && call_ensures(
            P::times,
            (&p, half, thickness),
            plain,
        )
}

/// The radius of a stamp of a brush so thick.
pub fn stamp_radius<P: Physics>(p: &P, thickness: P::Real) -> (r: P::Real)
    ensures
        radius_is(*p, thickness, r),
{
    let half = p.half();
    let plain = p.times(half, thickness);
    let r = p.greater(plain, half);
    assert(call_ensures(P::greater, (p, plain, half), r));
    r
}

/// `norm` is what the charge of a stamp is shared out over.
pub open spec fn norm_is<P: Physics>(p: P, radius: P::Real, hardness: P::Real, norm: P::Real) -> bool {
    exists|hard: P::Real, one: P::Real, more: P::Real, plain: P::Real, speck: P::Real| #[trigger]
        norm_by(p, radius, hardness, norm, hard, one, more, plain, speck)
}

pub open spec fn norm_by<P: Physics>(
    p: P,
    radius: P::Real,
    hardness: P::Real,
    norm: P::Real,
    hard: P::Real,
    one: P::Real,
    more: P::Real,
    plain: P::Real,
    speck: P::Real,
) -> bool {
    &&& clamp_is(p, hardness, hard)
    &&& call_ensures(P::one, (&p,), one)
    &&& call_ensures(P::plus, (&p, one, hard), more)
    &&& call_ensures(P::times, (&p, radius, more), plain)
    &&& call_ensures(P::speck, (&p,), speck)
    &&& call_ensures(P::greater, (&p, plain, speck), norm)
}

/// `amp` is the charge of a stamp at its centre, per dose.
pub open spec fn amplitude_is<P: Physics>(p: P, brush: Brush<P::Real>, radius: P::Real, amp: P::Real) -> bool {
    exists|norm: P::Real, a: P::Real, b: P::Real, c: P::Real| #[trigger] amplitude_by(p, brush, radius, amp, norm, a, b, c)
}

pub open spec fn amplitude_by<P: Physics>(
    p: P,
    brush: Brush<P::Real>,
    radius: P::Real,
    amp: P::Real,
    norm: P::Real,
    a: P::Real,
    b: P::Real,
    c: P::Real,
) -> bool {
    &&& norm_is(p, radius, brush.hardness, norm)
    &&& call_ensures(P::times, (&p, brush.sign, brush.magnitude), a)
    &&& call_ensures(P::times, (&p, a, brush.density), b)
    &&& call_ensures(P::times, (&p, b, brush.flow), c)
    &&& call_ensures(P::quotient, (&p, c, norm), amp)
}

/// The charge of a stamp at its centre, per dose.
pub fn amplitude<P: Physics>(p: &P, brush: &Brush<P::Real>, radius: P::Real) -> (amp: P::Real)
    ensures
        amplitude_is(*p, *brush, radius, amp),
{
    let hard = clamp_unit(p, brush.hardness);
    let one = p.one();
    let more = p.plus(one, hard);
    let plain = p.times(radius, more);
    let speck = p.speck();
    let norm = p.greater(plain, speck);
    assert(norm_by(*p, radius, brush.hardness, norm, hard, one, more, plain, speck));
    let a = p.times(brush.sign, brush.magnitude);
    let b = p.times(a, brush.density);
    let c = p.times(b, brush.flow);
    let amp = p.quotient(c, norm);
    assert(amplitude_by(*p, *brush, radius, amp, norm, a, b, c));
    amp
}

/// A rate agrees with the rate `other` within `tol`: by their difference, or
/// where there is anything to relate it to, by its share of `other`.
pub open spec fn agrees_is<P: Physics>(p: P, rate: P::Real, other: P::Real, tol: P::Real, close: bool) -> bool {
    exists|plain: P::Real, d: P::Real, near: bool, zero: P::Real, some: bool| #[trigger]
        agrees_by(p, rate, other, tol, close, plain, d, near, zero, some)
}

pub open spec fn agrees_by<P: Physics>(
    p: P,
    rate: P::Real,
    other: P::Real,
    tol: P::Real,
    close: bool,
    plain: P::Real,
    d: P::Real,
    near: bool,
    zero: P::Real,
    some: bool,
) -> bool {
    &&& call_ensures(P::minus, (&p, rate, other), plain)
    &&& call_ensures(P::size, (&p, plain), d)
    &&& call_ensures(P::at_most, (&p, d, tol), near)
    &&& call_ensures(P::zero, (&p,), zero)
    &&& call_ensures(P::exceeds, (&p, other, zero), some)
    &&& if near {
        close
    } else if some {
        exists|share: P::Real| #[trigger]
            call_ensures(P::at_most, (&p, share, tol), close) && call_ensures(P::quotient, (&p, d, other), share)
    } else {
        !close
    }
}

/// Whether a rate agrees with the rate `other` within `tol`.
pub fn agrees<P: Physics>(p: &P, rate: P::Real, other: P::Real, tol: P::Real) -> (close: bool)
    ensures
        agrees_is(*p, rate, other, tol, close),
{
    let plain = p.minus(rate, other);
    let d = p.size(plain);
    let near = p.at_most(d, tol);
    let zero = p.zero();
    let some = p.exceeds(other, zero);
    let close = if near {
        true
    } else if some {
        let share = p.quotient(d, other);
        let close = p.at_most(share, tol);
        assert(call_ensures(P::at_most, (p, share, tol), close));
        close
    } else {
        false
    };
    assert(agrees_by(*p, rate, other, tol, close, plain, d, near, zero, some));
    close
}

/// An energy is off the energy `other` by more than the share `tol` of it.
pub open spec fn strays_is<P: Physics>(p: P, energy: P::Real, other: P::Real, tol: P::Real, off: bool) -> bool {
    exists|plain: P::Real, d: P::Real, m: P::Real, tiny: P::Real, scale: P::Real, share: P::Real| #[trigger]
        strays_by(p, energy, other, tol, off, plain, d, m, tiny, scale, share)
}

pub open spec fn strays_by<P: Physics>(
    p: P,
    energy: P::Real,
    other: P::Real,
    tol: P::Real,
    off: bool,
    plain: P::Real,
    d: P::Real,
    m: P::Real,
    tiny: P::Real,
    scale: P::Real,
    share: P::Real,
) -> bool {
    &&& call_ensures(P::minus, (&p, energy, other), plain)
    &&& call_ensures(P::size, (&p, plain), d)
    &&& call_ensures(P::size, (&p, other), m)
    &&& call_ensures(P::tiny, (&p,), tiny)
    &&& call_ensures(P::greater, (&p, m, tiny), scale)
    &&& call_ensures(P::quotient, (&p, d, scale), share)
    &&& call_ensures(P::exceeds, (&p, share, tol), off)
}

/// Whether an energy is off the energy `other` by more than the share `tol`.
pub fn strays<P: Physics>(p: &P, energy: P::Real, other: P::Real, tol: P::Real) -> (off: bool)
    ensures
        strays_is(*p, energy, other, tol, off),
{
    let plain = p.minus(energy, other);
    let d = p.size(plain);
    let m = p.size(other);
    let tiny = p.tiny();
    let scale = p.greater(m, tiny);
    let share = p.quotient(d, scale);
    let off = p.exceeds(share, tol);
    assert(strays_by(*p, energy, other, tol, off, plain, d, m, tiny, scale, share));
    off
}

/// Every operation that the potential between charges calls on has one outcome.
pub open spec fn potentials_settled<P: Physics>(p: P) -> bool {
    &&& forall|r: P::Real, s: P::Real| #[trigger]
        call_ensures(P::zero, (&p,), r) && #[trigger] call_ensures(P::zero, (&p,), s) ==> r == s
    &&& forall|a: P::Real, b: P::Real, r: P::Real, s: P::Real| #[trigger]
        call_ensures(P::minus, (&p, a, b), r) && #[trigger] call_ensures(P::minus, (&p, a, b), s) ==> r == s
    &&& forall|a: P::Real, b: P::Real, r: P::Real, s: P::Real| #[trigger]
        call_ensures(P::times, (&p, a, b), r) && #[trigger] call_ensures(P::times, (&p, a, b), s) ==> r == s
    &&& forall|a: P::Real, b: P::Real, r: bool, s: bool| #[trigger]
        call_ensures(P::exceeds, (&p, a, b), r) && #[trigger] call_ensures(P::exceeds, (&p, a, b), s) ==> r == s
    &&& forall|a: P::Real, b: P::Real, r: P::Real, s: P::Real| #[trigger]
        call_ensures(P::quotient, (&p, a, b), r) && #[trigger] call_ensures(P::quotient, (&p, a, b), s) ==> r == s
    &&& forall|r2: i64, r: P::Real, s: P::Real| #[trigger]
        call_ensures(P::root, (&p, r2), r) && #[trigger] call_ensures(P::root, (&p, r2), s) ==> r == s
    &&& forall|v: P::Real, r: P::Real, s: P::Real| #[trigger]
        call_ensures(P::exponential, (&p, v), r) && #[trigger] call_ensures(P::exponential, (&p, v), s) ==> r == s
    &&& forall|v: P::Real, r: bool, s: bool| #[trigger]
        call_ensures(P::vanishes, (&p, v), r) && #[trigger] call_ensures(P::vanishes, (&p, v), s) ==> r == s
}

/// The potential at a distance has then one value.
pub proof fn lemma_potential_settled<P: Physics>(p: P, r2: int, params: Params<P::Real>, attractive: bool, u: P::Real, v: P::Real)
    requires
        potentials_settled(p),
        potential_is(p, r2, params, attractive, u),
        potential_is(p, r2, params, attractive, v),
    ensures
        u == v,
{
}

/// Every operation that the potential of painted charge calls on has one
/// outcome.
pub open spec fn castings_settled<P: Physics>(p: P) -> bool {
    &&& potentials_settled(p)
    &&& forall|r: P::Real, s: P::Real| #[trigger]
        call_ensures(P::one, (&p,), r) && #[trigger] call_ensures(P::one, (&p,), s) ==> r == s
    &&& forall|r: P::Real, s: P::Real| #[trigger]
        call_ensures(P::half, (&p,), r) && #[trigger] call_ensures(P::half, (&p,), s) ==> r == s
    &&& forall|r: P::Real, s: P::Real| #[trigger]
        call_ensures(P::pi, (&p,), r) && #[trigger] call_ensures(P::pi, (&p,), s) ==> r == s
    &&& forall|v: P::Real, r: P::Real, s: P::Real| #[trigger]
        call_ensures(P::cosine, (&p, v), r) && #[trigger] call_ensures(P::cosine, (&p, v), s) ==> r == s
    &&& forall|a: P::Real, b: P::Real, r: P::Real, s: P::Real| #[trigger]
        call_ensures(P::plus, (&p, a, b), r) && #[trigger] call_ensures(P::plus, (&p, a, b), s) ==> r == s
    &&& forall|a: P::Real, b: P::Real, r: bool, s: bool| #[trigger]
        call_ensures(P::at_most, (&p, a, b), r) && #[trigger] call_ensures(P::at_most, (&p, a, b), s) ==> r == s
}

/// The potential that a painted cell casts has then one value.
pub proof fn lemma_casting_settled<P: Physics>(
    p: P,
    r2: int,
    strength: P::Real,
    screening: P::Real,
    coupling: P::Real,
    hardness: P::Real,
    u: P::Real,
    v: P::Real,
)
    requires
        castings_settled(p),
        casts(p, r2, strength, screening, coupling, hardness, u),
        casts(p, r2, strength, screening, coupling, hardness, v),
    ensures
        u == v,
{
}

/// Differences, sizes, shares and order are exact on the numbers that `val`
/// reads off, and the least scale reads `tiny`.
pub open spec fn measures<P: Physics>(p: P, val: spec_fn(P::Real) -> real, tiny: real) -> bool {
    &&& tiny > 0 as real
    &&& forall|r: P::Real| #[trigger] call_ensures(P::zero, (&p,), r) ==> val(r) == 0 as real
    &&& forall|r: P::Real| #[trigger] call_ensures(P::tiny, (&p,), r) ==> val(r) == tiny
    &&& forall|a: P::Real, b: P::Real, r: P::Real| #[trigger]
        call_ensures(P::minus, (&p, a, b), r) ==> val(r) == val(a) - val(b)
    &&& forall|v: P::Real, r: P::Real| #[trigger] call_ensures(P::size, (&p, v), r) ==> val(r) == magnitude(val(v))
    &&& forall|a: P::Real, b: P::Real, r: P::Real| #[trigger]
        call_ensures(P::greater, (&p, a, b), r) ==> val(r) == (if val(a) >= val(b) {
            val(a)
        } else {
            val(b)
        })
    &&& forall|a: P::Real, b: P::Real, r: P::Real| #[trigger]
        call_ensures(P::quotient, (&p, a, b), r) && val(b) > 0 as real ==> val(r) * val(b) == val(a)
    &&& forall|a: P::Real, b: P::Real, r: bool| #[trigger] call_ensures(P::at_most, (&p, a, b), r) ==> r == (val(a) <= val(b))
    &&& forall|a: P::Real, b: P::Real, r: bool| #[trigger] call_ensures(P::exceeds, (&p, a, b), r) ==> r == (val(a) > val(b))
}

pub open spec fn magnitude(v: real) -> real {
    if v >= 0 as real {
        v
    } else {
        -v
    }
}

/// Rates agree if they differ by at most the tolerance, or by at most that
/// share of the other where the other is positive.
pub proof fn law_agreement_in_numbers<P: Physics>(
    p: P,
    val: spec_fn(P::Real) -> real,
    tiny: real,
    rate: P::Real,
    other: P::Real,
    tol: P::Real,
    close: bool,
)
    requires
        measures(p, val, tiny),
        agrees_is(p, rate, other, tol, close),
    ensures
        close <==> {
            ||| magnitude(val(rate) - val(other)) <= val(tol)
            ||| val(other) > 0 as real && magnitude(val(rate) - val(other)) <= val(tol) * val(other)
        },
{
    let (plain, d, near, zero, some) = choose|plain: P::Real, d: P::Real, near: bool, zero: P::Real, some: bool| #[trigger]
        agrees_by(p, rate, other, tol, close, plain, d, near, zero, some);
    if !near && some {
        let share = choose|share: P::Real| #[trigger]
            call_ensures(P::at_most, (&p, share, tol), close) && call_ensures(P::quotient, (&p, d, other), share);
        lemma_share(val(share), val(tol), val(other));
    }
}

/// An energy strays if it differs by more than the tolerated share of the
/// other's size, which counts for no less than the least scale.
pub proof fn law_straying_in_numbers<P: Physics>(
    p: P,
    val: spec_fn(P::Real) -> real,
    tiny: real,
    energy: P::Real,
    other: P::Real,
    tol: P::Real,
    off: bool,
)
    requires
        measures(p, val, tiny),
        strays_is(p, energy, other, tol, off),
    ensures
        off <==> magnitude(val(energy) - val(other)) > val(tol) * (if magnitude(val(other)) >= tiny {
            magnitude(val(other))
        } else {
            tiny
        }),
{
    let (plain, d, m, least, scale, share) = choose|
        plain: P::Real,
        d: P::Real,
        m: P::Real,
        least: P::Real,
        scale: P::Real,
        share: P::Real,
    | #[trigger]
        strays_by(p, energy, other, tol, off, plain, d, m, least, scale, share);
    lemma_share(val(share), val(tol), val(scale));
}

proof fn lemma_share(a: real, b: real, c: real)
    requires
        c > 0 as real,
    ensures
        a <= b <==> a * c <= b * c,
{
    assert(a <= b ==> a * c <= b * c) by (nonlinear_arith)
        requires
            c > 0 as real,
    ;
    assert(a > b ==> a * c > b * c) by (nonlinear_arith)
        requires
            c > 0 as real,
    ;
}

} // verus!

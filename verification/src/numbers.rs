//! The formulas of the gas in real numbers.

use crate::exact::lemma_summed_exact;
use crate::formulas::{
    alpha_by, alpha_is, amplitude, amplitude_by, amplitude_is, boltzmann, casting, casts, coldness, coldness_is, cover,
    cover_is, damped, deepened, downhill, has_well, has_well_by, lucky, lucky_by, lucky_is, move_energy, norm_by, odds_are,
    odds_by, pace, pace_is, potential, potential_is, radial_alpha_at, radius_is, repels, repels_by, stamp_radius, tapered,
    thermal, thermal_by, thermal_is, total, total_by, weighed,
};
use crate::physics::{sum, Brush, Params, Physics, Stats};
use crate::tally::tally;
use crate::terms::{
    beyond, beyond_is, clamp_by, clamp_is, clamp_unit, cosine_fall, cosine_fall_by, cosine_fall_is, decay, decay_by,
    decay_is, over_distance, over_distance_is, reach, reach_is, snap, snap_by, solid, stamp_count, unit_sign, unit_sign_by,
};
use vstd::prelude::*;

verus! {

/// The numbers that values of a type stand for, and the functions and constants
/// of the gas on them.
#[verifier::reject_recursive_types(R)]
pub struct Numbers<R> {
    /// The number that a value stands for.
    pub val: spec_fn(R) -> real,
    pub exp: spec_fn(real) -> real,
    pub cos: spec_fn(real) -> real,
    /// The number between zero and one that a random word stands for.
    pub rand: spec_fn(u64) -> real,
    pub pi: real,
    /// The thermal energy per degree.
    pub kb: real,
    /// The temperature below which there is none.
    pub least: real,
    /// Numbers smaller than this are noise.
    pub noise: real,
    /// The least that the charge of a stamp is shared out over.
    pub speck: real,
    /// How far apart stamps are.
    pub spacing: real,
}

/// `d` is the distance of two points whose coordinates differ by `y` and `x`.
pub open spec fn is_distance(d: real, y: real, x: real) -> bool {
    d >= 0 as real && d * d == y * y + x * x
}

pub open spec fn larger(a: real, b: real) -> real {
    if a >= b {
        a
    } else {
        b
    }
}

pub open spec fn smaller(a: real, b: real) -> real {
    if a <= b {
        a
    } else {
        b
    }
}

/// A whole number as a real one.
pub open spec fn whole(n: int) -> real {
    n as real
}

/// `v` lies within what the machine holds as a whole number.
pub open spec fn in_range(v: real) -> bool {
    whole(i64::MIN as int) <= v <= whole(i64::MAX as int)
}

/// The arithmetic does what its names say, on the numbers that values stand for.
pub open spec fn computes<P: Physics>(p: P, n: Numbers<P::Real>) -> bool {
    &&& n.kb > 0 as real && n.least > 0 as real && n.speck > 0 as real && n.spacing > 0 as real
    &&& forall|r: P::Real| #[trigger] call_ensures(P::zero, (&p,), r) ==> (n.val)(r) == 0 as real
    &&& forall|r: P::Real| #[trigger] call_ensures(P::one, (&p,), r) ==> (n.val)(r) == 1 as real
    &&& forall|r: P::Real| #[trigger] call_ensures(P::half, (&p,), r) ==> (n.val)(r) + (n.val)(r) == 1 as real
    &&& forall|r: P::Real| #[trigger] call_ensures(P::pi, (&p,), r) ==> (n.val)(r) == n.pi
    &&& forall|r: P::Real| #[trigger] call_ensures(P::boltzmann_constant, (&p,), r) ==> (n.val)(r) == n.kb
    &&& forall|r: P::Real| #[trigger] call_ensures(P::least_temperature, (&p,), r) ==> (n.val)(r) == n.least
    &&& forall|r: P::Real| #[trigger] call_ensures(P::noise, (&p,), r) ==> (n.val)(r) == n.noise
    &&& forall|r: P::Real| #[trigger] call_ensures(P::speck, (&p,), r) ==> (n.val)(r) == n.speck
    &&& forall|r: P::Real| #[trigger] call_ensures(P::spacing, (&p,), r) ==> (n.val)(r) == n.spacing
    &&& forall|a: P::Real, b: P::Real, r: P::Real| #[trigger]
        call_ensures(P::plus, (&p, a, b), r) ==> (n.val)(r) == (n.val)(a) + (n.val)(b)
    &&& forall|a: P::Real, b: P::Real, r: P::Real| #[trigger]
        call_ensures(P::minus, (&p, a, b), r) ==> (n.val)(r) == (n.val)(a) - (n.val)(b)
    &&& forall|a: P::Real, b: P::Real, r: P::Real| #[trigger]
        call_ensures(P::times, (&p, a, b), r) ==> (n.val)(r) == (n.val)(a) * (n.val)(b)
    &&& forall|a: P::Real, b: P::Real, r: P::Real| #[trigger]
        call_ensures(P::quotient, (&p, a, b), r) && (n.val)(b) != 0 as real ==> (n.val)(r) == (n.val)(a) / (n.val)(b)
    &&& forall|v: P::Real, r: P::Real| #[trigger]
        call_ensures(P::size, (&p, v), r) ==> (n.val)(r) == larger((n.val)(v), -(n.val)(v))
    &&& forall|a: u64, b: u64, r: P::Real| #[trigger]
        call_ensures(P::ratio, (&p, a, b), r) && b > 0 ==> (n.val)(r) == whole(a as int) / whole(b as int)
    &&& forall|a: u64, r: P::Real| #[trigger] call_ensures(P::count, (&p, a), r) ==> (n.val)(r) == whole(a as int)
    &&& forall|v: P::Real, m: usize, r: P::Real| #[trigger]
        call_ensures(P::share, (&p, v, m), r) && m > 0 ==> (n.val)(r) == (n.val)(v) / whole(m as int)
    &&& forall|a: P::Real, b: P::Real, r: bool| #[trigger]
        call_ensures(P::exceeds, (&p, a, b), r) ==> r == ((n.val)(a) > (n.val)(b))
    &&& forall|a: P::Real, b: P::Real, r: bool| #[trigger]
        call_ensures(P::at_most, (&p, a, b), r) ==> r == ((n.val)(a) <= (n.val)(b))
    &&& forall|v: P::Real, r: bool| #[trigger] call_ensures(P::vanishes, (&p, v), r) ==> r == ((n.val)(v) == 0 as real)
    &&& forall|a: P::Real, b: P::Real, r: P::Real| #[trigger]
        call_ensures(P::greater, (&p, a, b), r) ==> (n.val)(r) == larger((n.val)(a), (n.val)(b))
    &&& forall|a: P::Real, b: P::Real, r: P::Real| #[trigger]
        call_ensures(P::lesser, (&p, a, b), r) ==> (n.val)(r) == smaller((n.val)(a), (n.val)(b))
    &&& forall|r: P::Real| #[trigger] call_ensures(P::highest, (&p,), r) ==> (n.val)(r) >= whole(i64::MAX as int)
    &&& forall|r: P::Real| #[trigger] call_ensures(P::lowest, (&p,), r) ==> (n.val)(r) <= whole(i64::MIN as int)
    &&& forall|v: P::Real, c: i64| #[trigger]
        call_ensures(P::floor, (&p, v), c) && in_range((n.val)(v)) ==> whole(c as int) <= (n.val)(v) < whole(c + 1)
    &&& forall|v: P::Real, c: i64| #[trigger]
        call_ensures(P::ceil, (&p, v), c) && in_range((n.val)(v)) ==> whole(c - 1) < (n.val)(v) <= whole(c as int)
    &&& forall|r2: i64, r: P::Real| #[trigger]
        call_ensures(P::root, (&p, r2), r) && r2 >= 0 ==> (n.val)(r) >= 0 as real && (n.val)(r) * (n.val)(r) == whole(r2 as int)
    &&& forall|v: P::Real, r: P::Real| #[trigger] call_ensures(P::exponential, (&p, v), r) ==> (n.val)(r) == (n.exp)((n.val)(v))
    &&& forall|v: P::Real, r: P::Real| #[trigger] call_ensures(P::cosine, (&p, v), r) ==> (n.val)(r) == (n.cos)((n.val)(v))
    &&& forall|word: u64, r: P::Real| #[trigger] call_ensures(P::uniform, (&p, word), r) ==> (n.val)(r) == (n.rand)(word)
    &&& forall|y: i64, x: i64, at: [P::Real; 2], d: P::Real| #[trigger]
        call_ensures(P::distance, (&p, y, x, at), d) ==> is_distance(
            (n.val)(d),
            whole(y as int) - (n.val)(at[0]),
            whole(x as int) - (n.val)(at[1]),
        )
    &&& forall|a: [P::Real; 2], b: [P::Real; 2], d: P::Real| #[trigger]
        call_ensures(P::way, (&p, a, b), d) ==> is_distance(
            (n.val)(d),
            (n.val)(b[0]) - (n.val)(a[0]),
            (n.val)(b[1]) - (n.val)(a[1]),
        )
}

/// A number that is not negative has one root that is not negative.
pub proof fn lemma_one_root(a: real, b: real)
    requires
        a >= 0 as real,
        b >= 0 as real,
        a * a == b * b,
    ensures
        a == b,
{
    assert((a - b) * (a + b) == a * a - b * b) by (nonlinear_arith);
    assert(a == b) by (nonlinear_arith)
        requires
            a >= 0 as real,
            b >= 0 as real,
            (a - b) * (a + b) == 0 as real,
    ;
}

/// The root of a positive whole number is positive.
proof fn lemma_root_positive(r: real, r2: int)
    requires
        r >= 0 as real,
        r * r == whole(r2),
    ensures
        r2 > 0 ==> r > 0 as real,
        r2 <= 0 ==> r == 0 as real,
{
    if r == 0 as real {
        assert(r * r == 0 as real) by (nonlinear_arith)
            requires
                r == 0 as real,
        ;
    } else {
        assert(r * r > 0 as real) by (nonlinear_arith)
            requires
                r > 0 as real,
        ;
    }
}

/// A sum is that of the numbers.
pub proof fn law_sum_in_numbers<P: Physics>(p: P, n: Numbers<P::Real>, terms: Vec<P::Real>, r: P::Real)
    requires
        computes(p, n),
        call_ensures(sum::<P>, (&p, &terms), r),
    ensures
        (n.val)(r) == tally(terms@.len() as int, |i: int| (n.val)(terms@[i])),
{
    lemma_summed_exact(p, n.val, terms@, r);
}

/// The rate of acceptance is the share of the proposals that were accepted, nothing
/// where there were none.
pub proof fn law_acceptance_in_numbers<P: Physics>(p: P, n: Numbers<P::Real>, stats: Stats<P::Real>, r: P::Real)
    requires
        computes(p, n),
        call_ensures(Stats::<P::Real>::acceptance::<P>, (&stats, &p), r),
    ensures
        stats.proposed == 0 ==> (n.val)(r) == 0 as real,
        (n.val)(r) * whole(stats.proposed as int) == (if stats.proposed == 0 {
            0 as real
        } else {
            whole(stats.accepted as int)
        }),
{
    if stats.proposed > 0 {
        let (a, b) = (whole(stats.accepted as int), whole(stats.proposed as int));
        assert(a / b * b == a) by (nonlinear_arith)
            requires
                b > 0 as real,
        ;
    }
}

/// Lines close the cells that they cover by more than half.
pub proof fn law_solid_in_numbers<P: Physics>(p: P, n: Numbers<P::Real>, cov: P::Real, closed: bool)
    requires
        computes(p, n),
        call_ensures(solid::<P>, (&p, cov), closed),
    ensures
        closed <==> (n.val)(cov) + (n.val)(cov) > 1 as real,
{
}

/// The sign of a number, as one or minus one; that of nothing is one.
pub proof fn law_unit_sign_in_numbers<P: Physics>(p: P, n: Numbers<P::Real>, v: P::Real, r: P::Real)
    requires
        computes(p, n),
        call_ensures(unit_sign::<P>, (&p, v), r),
    ensures
        (n.val)(v) >= 0 as real ==> (n.val)(r) == 1 as real,
        (n.val)(v) < 0 as real ==> (n.val)(r) == -(1 as real),
{
    let (zero, one, up) = choose|zero: P::Real, one: P::Real, up: bool| #[trigger] unit_sign_by(p, v, r, zero, one, up);
}

/// Noise reads as nothing, and everything else as itself.
pub proof fn law_snap_in_numbers<P: Physics>(p: P, n: Numbers<P::Real>, v: P::Real, r: P::Real)
    requires
        computes(p, n),
        call_ensures(snap::<P>, (&p, v), r),
    ensures
        -n.noise < (n.val)(v) < n.noise ==> (n.val)(r) == 0 as real,
        (n.val)(v) <= -n.noise || (n.val)(v) >= n.noise ==> (n.val)(r) == (n.val)(v),
{
    let (noise, size, lost) = choose|noise: P::Real, size: P::Real, lost: bool| #[trigger] snap_by(p, v, r, noise, size, lost);
}

/// A number brought between zero and one.
pub open spec fn to_unit(v: real) -> real {
    larger(0 as real, smaller(v, 1 as real))
}

proof fn lemma_clamp<P: Physics>(p: P, n: Numbers<P::Real>, v: P::Real, r: P::Real)
    requires
        computes(p, n),
        clamp_is(p, v, r),
    ensures
        (n.val)(r) == to_unit((n.val)(v)),
{
    let (zero, one, below, above) = choose|zero: P::Real, one: P::Real, below: bool, above: bool| #[trigger]
        clamp_by(p, v, r, zero, one, below, above);
}

/// The number between zero and one that is closest.
pub proof fn law_clamp_in_numbers<P: Physics>(p: P, n: Numbers<P::Real>, v: P::Real, r: P::Real)
    requires
        computes(p, n),
        call_ensures(clamp_unit::<P>, (&p, v), r),
    ensures
        (n.val)(r) == to_unit((n.val)(v)),
{
    lemma_clamp(p, n, v, r);
}

/// A radius spans the least number of whole cells that is no less than it, and
/// one at least.
pub proof fn law_reach_in_numbers<P: Physics>(p: P, n: Numbers<P::Real>, radius: P::Real, rc: usize)
    requires
        computes(p, n),
        call_ensures(reach::<P>, (&p, radius), rc),
        in_range((n.val)(radius)),
        (n.val)(radius) <= whole(usize::MAX as int),
    ensures
        rc >= 1,
        (n.val)(radius) <= whole(rc as int),
        rc > 1 ==> whole(rc - 1) < (n.val)(radius),
{
    lemma_reach(p, n, radius, rc);
}

pub proof fn lemma_reach<P: Physics>(p: P, n: Numbers<P::Real>, radius: P::Real, rc: usize)
    requires
        computes(p, n),
        reach_is(p, radius, rc),
        in_range((n.val)(radius)),
        (n.val)(radius) <= whole(usize::MAX as int),
    ensures
        rc >= 1,
        (n.val)(radius) <= whole(rc as int),
        rc > 1 ==> whole(rc - 1) < (n.val)(radius),
{
    let c = choose|c: i64| #[trigger] call_ensures(P::ceil, (&p, radius), c) && rc == stamp_count(c);
    assert(whole(c - 1) < (n.val)(radius) <= whole(c as int));
    assert(c <= usize::MAX);
}

/// A distance is beyond a cutoff if it is longer.
pub proof fn law_beyond_in_numbers<P: Physics>(p: P, n: Numbers<P::Real>, r2: i64, cutoff: P::Real, far: bool, r: real)
    requires
        computes(p, n),
        call_ensures(beyond::<P>, (&p, r2, cutoff), far),
        r >= 0 as real,
        r * r == whole(r2 as int),
    ensures
        far <==> r > (n.val)(cutoff),
{
    lemma_beyond(p, n, r2, cutoff, far, r);
}

proof fn lemma_beyond<P: Physics>(p: P, n: Numbers<P::Real>, r2: i64, cutoff: P::Real, far: bool, r: real)
    requires
        computes(p, n),
        beyond_is(p, r2, cutoff, far),
        r >= 0 as real,
        r * r == whole(r2 as int),
    ensures
        far <==> r > (n.val)(cutoff),
{
    let root = choose|root: P::Real| #[trigger]
        call_ensures(P::exceeds, (&p, root, cutoff), far) && call_ensures(P::root, (&p, r2), root);
    lemma_square_positive(r);
    assert(r2 >= 0);
    lemma_one_root((n.val)(root), r);
}

pub proof fn lemma_square_positive(r: real)
    ensures
        r * r >= 0 as real,
{
    assert(r * r >= 0 as real) by (nonlinear_arith);
}

proof fn lemma_over_distance<P: Physics>(p: P, n: Numbers<P::Real>, v: P::Real, r2: i64, u: P::Real, r: real)
    requires
        computes(p, n),
        over_distance_is(p, v, r2, u),
        r > 0 as real,
        r * r == whole(r2 as int),
    ensures
        (n.val)(u) == (n.val)(v) / r,
{
    let root = choose|root: P::Real| #[trigger]
        call_ensures(P::quotient, (&p, v, root), u) && call_ensures(P::root, (&p, r2), root);
    lemma_square_positive(r);
    assert(r2 >= 0);
    lemma_one_root((n.val)(root), r);
}

/// A value over a distance.
pub proof fn law_over_distance_in_numbers<P: Physics>(p: P, n: Numbers<P::Real>, v: P::Real, r2: i64, u: P::Real, r: real)
    requires
        computes(p, n),
        call_ensures(over_distance::<P>, (&p, v, r2), u),
        r > 0 as real,
        r * r == whole(r2 as int),
    ensures
        (n.val)(u) == (n.val)(v) / r,
{
    lemma_over_distance(p, n, v, r2, u, r);
}

proof fn lemma_decay<P: Physics>(p: P, n: Numbers<P::Real>, r2: i64, length: P::Real, f: P::Real, r: real)
    requires
        computes(p, n),
        decay_is(p, r2, length, f),
        r >= 0 as real,
        r * r == whole(r2 as int),
        (n.val)(length) != 0 as real,
    ensures
        (n.val)(f) == (n.exp)((-r) / (n.val)(length)),
{
    let (zero, root, back, x) = choose|zero: P::Real, root: P::Real, back: P::Real, x: P::Real| #[trigger]
        decay_by(p, r2, length, f, zero, root, back, x);
    lemma_square_positive(r);
    assert(r2 >= 0);
    lemma_one_root((n.val)(root), r);
    assert((n.val)(back) == -r);
}

/// What falls off by a length falls off exponentially with the distance.
pub proof fn law_decay_in_numbers<P: Physics>(p: P, n: Numbers<P::Real>, r2: i64, length: P::Real, f: P::Real, r: real)
    requires
        computes(p, n),
        call_ensures(decay::<P>, (&p, r2, length), f),
        r >= 0 as real,
        r * r == whole(r2 as int),
        (n.val)(length) != 0 as real,
    ensures
        (n.val)(f) == (n.exp)((-r) / (n.val)(length)),
{
    lemma_decay(p, n, r2, length, f, r);
}

/// How far a cosine falls at `d` on the way from `inner` to `outer`.
pub open spec fn cosine_at<R>(n: Numbers<R>, d: real, inner: real, outer: real) -> real {
    (1 as real + (n.cos)(n.pi * ((d - inner) / (outer - inner)))) / 2 as real
}

proof fn lemma_cosine_fall<P: Physics>(p: P, n: Numbers<P::Real>, d: P::Real, inner: P::Real, outer: P::Real, f: P::Real)
    requires
        computes(p, n),
        cosine_fall_is(p, d, inner, outer, f),
        (n.val)(inner) != (n.val)(outer),
    ensures
        (n.val)(f) == cosine_at(n, (n.val)(d), (n.val)(inner), (n.val)(outer)),
{
    let (a, b, t, pi, angle, c) = choose|a: P::Real, b: P::Real, t: P::Real, pi: P::Real, angle: P::Real, c: P::Real| #[trigger]
        cosine_fall_by(p, d, inner, outer, f, a, b, t, pi, angle, c);
    let (half, one, more) = choose|half: P::Real, one: P::Real, more: P::Real| #[trigger]
        call_ensures(P::times, (&p, half, more), f) && #[trigger] call_ensures(P::plus, (&p, one, c), more) && call_ensures(
            P::half,
            (&p,),
            half,
        ) && call_ensures(P::one, (&p,), one);
    let (hf, m) = ((n.val)(half), (n.val)(more));
    assert(hf * m == m / 2 as real) by (nonlinear_arith)
        requires
            hf + hf == 1 as real,
    ;
}

/// What falls off like a cosine.
pub proof fn law_cosine_fall_in_numbers<P: Physics>(p: P, n: Numbers<P::Real>, d: P::Real, inner: P::Real, outer: P::Real, f: P::Real)
    requires
        computes(p, n),
        call_ensures(cosine_fall::<P>, (&p, d, inner, outer), f),
        (n.val)(inner) != (n.val)(outer),
    ensures
        (n.val)(f) == cosine_at(n, (n.val)(d), (n.val)(inner), (n.val)(outer)),
{
    lemma_cosine_fall(p, n, d, inner, outer, f);
}

/// The screened repulsion at the distance `r`; a screening length of nothing
/// screens nothing.
pub open spec fn screened_at<R>(n: Numbers<R>, r: real, strength: real, screening: real) -> real {
    if screening > 0 as real {
        strength / r * (n.exp)((-r) / screening)
    } else {
        strength / r
    }
}

/// The well of attraction at the distance `r`; a range of nothing leaves none.
pub open spec fn well_at<R>(n: Numbers<R>, r: real, depth: real, range: real) -> real {
    if range > 0 as real {
        depth * (n.exp)((-r) / range)
    } else {
        0 as real
    }
}

proof fn lemma_repels<P: Physics>(p: P, n: Numbers<P::Real>, r2: i64, strength: P::Real, screening: P::Real, v: P::Real, r: real)
    requires
        computes(p, n),
        repels(p, r2 as int, strength, screening, v),
        r > 0 as real,
        r * r == whole(r2 as int),
    ensures
        (n.val)(v) == screened_at(n, r, (n.val)(strength), (n.val)(screening)),
{
    let (bare, zero, screened) = choose|bare: P::Real, zero: P::Real, screened: bool| #[trigger]
        repels_by(p, r2 as int, strength, screening, v, bare, zero, screened);
    assert((r2 as int) as i64 == r2);
    lemma_over_distance(p, n, strength, r2, bare, r);
    if screened {
        let f = choose|f: P::Real| #[trigger]
            call_ensures(P::times, (&p, bare, f), v) && decay_is(p, r2, screening, f);
        lemma_decay(p, n, r2, screening, f, r);
    }
}

/// The potential between two charges at the distance `r`: nothing at no distance
/// and beyond the cutoff, and else the screened repulsion, with the whole of the
/// well taken off it where one is asked for, whatever the screening.
pub proof fn law_potential_in_numbers<P: Physics>(
    p: P,
    n: Numbers<P::Real>,
    r2: i64,
    params: Params<P::Real>,
    attractive: bool,
    v: P::Real,
    r: real,
)
    requires
        computes(p, n),
        call_ensures(potential::<P>, (&p, r2, &params, attractive), v),
        r >= 0 as real,
        r * r == whole(r2 as int),
    ensures
        (n.val)(v) == potential_at(n, r, params, attractive),
{
    lemma_potential(p, n, r2, params, attractive, v, r);
}

/// The potential between two charges at the distance `r`.
pub open spec fn potential_at<R>(n: Numbers<R>, r: real, params: Params<R>, attractive: bool) -> real {
    if r <= 0 as real || r > (n.val)(params.cutoff) {
        0 as real
    } else {
        screened_at(n, r, (n.val)(params.strength), (n.val)(params.screening)) - if attractive {
            well_at(n, r, (n.val)(params.attract_depth), (n.val)(params.attract_range))
        } else {
            0 as real
        }
    }
}

/// The same of what an interaction table may hold.
pub proof fn lemma_potential<P: Physics>(
    p: P,
    n: Numbers<P::Real>,
    r2: i64,
    params: Params<P::Real>,
    attractive: bool,
    v: P::Real,
    r: real,
)
    requires
        computes(p, n),
        potential_is(p, r2 as int, params, attractive, v),
        r >= 0 as real,
        r * r == whole(r2 as int),
    ensures
        (n.val)(v) == potential_at(n, r, params, attractive),
{
    lemma_root_positive(r, r2 as int);
    if r2 > 0 {
        assert((r2 as int) as i64 == r2);
        let far = choose|far: bool| #[trigger]
            beyond_is(p, r2, params.cutoff, far) && if far {
                call_ensures(P::zero, (&p,), v)
            } else {
                exists|a: P::Real| #[trigger]
                    repels(p, r2 as int, params.strength, params.screening, a) && if attractive {
                        exists|well: bool| #[trigger]
                            has_well(p, params, well) && if well {
                                deepened(p, a, r2 as int, params, v)
                            } else {
                                v == a
                            }
                    } else {
                        v == a
                    }
            };
        lemma_beyond(p, n, r2, params.cutoff, far, r);
        if !far {
            let a = choose|a: P::Real| #[trigger]
                repels(p, r2 as int, params.strength, params.screening, a) && if attractive {
                    exists|well: bool| #[trigger]
                        has_well(p, params, well) && if well {
                            deepened(p, a, r2 as int, params, v)
                        } else {
                            v == a
                        }
                } else {
                    v == a
                };
            lemma_repels(p, n, r2, params.strength, params.screening, a, r);
            if attractive {
                let well = choose|well: bool| #[trigger]
                    has_well(p, params, well) && if well {
                        deepened(p, a, r2 as int, params, v)
                    } else {
                        v == a
                    };
                let (flat, zero, wide) = choose|flat: bool, zero: P::Real, wide: bool| #[trigger]
                    has_well_by(p, params, well, flat, zero, wide);
                let (depth, range) = (params.attract_depth, params.attract_range);
                if well {
                    let w = choose|w: P::Real| #[trigger]
                        call_ensures(P::minus, (&p, a, w), v) && damped(p, depth, r2 as int, range, w);
                    let f = choose|f: P::Real| #[trigger]
                        call_ensures(P::times, (&p, depth, f), w) && decay_is(p, r2, range, f);
                    lemma_decay(p, n, r2, range, f, r);
                } else if wide {
                    let e = (n.exp)((-r) / (n.val)(range));
                    assert(0 as real * e == 0 as real) by (nonlinear_arith);
                }
            }
        }
    }
}

/// The well is apart from the repulsion: what attraction takes off the potential
/// does not depend on the strength of the repulsion or on its screening.
pub proof fn law_well_is_apart_from_the_repulsion<P: Physics>(
    p: P,
    n: Numbers<P::Real>,
    r2: i64,
    one: Params<P::Real>,
    two: Params<P::Real>,
    with_one: P::Real,
    without_one: P::Real,
    with_two: P::Real,
    without_two: P::Real,
    r: real,
)
    requires
        computes(p, n),
        r >= 0 as real,
        r * r == whole(r2 as int),
        one.cutoff == two.cutoff,
        one.attract_depth == two.attract_depth,
        one.attract_range == two.attract_range,
        call_ensures(potential::<P>, (&p, r2, &one, true), with_one),
        call_ensures(potential::<P>, (&p, r2, &one, false), without_one),
        call_ensures(potential::<P>, (&p, r2, &two, true), with_two),
        call_ensures(potential::<P>, (&p, r2, &two, false), without_two),
    ensures
        (n.val)(without_one) - (n.val)(with_one) == (n.val)(without_two) - (n.val)(with_two),
{
    lemma_potential(p, n, r2, one, true, with_one, r);
    lemma_potential(p, n, r2, one, false, without_one, r);
    lemma_potential(p, n, r2, two, true, with_two, r);
    lemma_potential(p, n, r2, two, false, without_two, r);
}

/// How far a round profile covers a point at the distance `d` from its centre:
/// whole within its hard share, nothing from its radius on, and in between
/// falling like a cosine.
pub open spec fn profile_at<R>(n: Numbers<R>, d: real, radius: real, hardness: real) -> real {
    let inner = radius * to_unit(hardness);
    if d <= inner {
        1 as real
    } else if d >= radius {
        0 as real
    } else {
        cosine_at(n, d, inner, radius)
    }
}

/// What a round profile covers.
pub proof fn law_profile_in_numbers<P: Physics>(p: P, n: Numbers<P::Real>, d: P::Real, radius: P::Real, hardness: P::Real, a: P::Real)
    requires
        computes(p, n),
        call_ensures(radial_alpha_at::<P>, (&p, d, radius, hardness), a),
    ensures
        (n.val)(a) == profile_at(n, (n.val)(d), (n.val)(radius), (n.val)(hardness)),
{
    lemma_profile(p, n, d, radius, hardness, a);
}

pub proof fn lemma_profile<P: Physics>(p: P, n: Numbers<P::Real>, d: P::Real, radius: P::Real, hardness: P::Real, a: P::Real)
    requires
        computes(p, n),
        alpha_is(p, d, radius, hardness, a),
    ensures
        (n.val)(a) == profile_at(n, (n.val)(d), (n.val)(radius), (n.val)(hardness)),
{
    let (hard, inner, within, outside, soft) = choose|
        hard: P::Real,
        inner: P::Real,
        within: bool,
        outside: bool,
        soft: bool,
    | #[trigger]
        alpha_by(p, d, radius, hardness, a, hard, inner, within, outside, soft);
    lemma_clamp(p, n, hardness, hard);
    if !within && !outside && soft {
        lemma_cosine_fall(p, n, d, inner, radius, a);
    }
}

/// The potential that a painted cell casts at the distance `r`.
pub open spec fn cast_at<R>(n: Numbers<R>, r: real, strength: real, screening: real, coupling: real, hardness: real) -> real {
    if r <= 0 as real || r > coupling {
        0 as real
    } else {
        screened_at(n, r, strength, screening) * profile_at(n, r, coupling, hardness)
    }
}

pub proof fn lemma_casting<P: Physics>(
    p: P,
    n: Numbers<P::Real>,
    r2: i64,
    strength: P::Real,
    screening: P::Real,
    coupling: P::Real,
    hardness: P::Real,
    v: P::Real,
    r: real,
)
    requires
        computes(p, n),
        casts(p, r2 as int, strength, screening, coupling, hardness, v),
        r >= 0 as real,
        r * r == whole(r2 as int),
    ensures
        (n.val)(v) == cast_at(n, r, (n.val)(strength), (n.val)(screening), (n.val)(coupling), (n.val)(hardness)),
{
    lemma_root_positive(r, r2 as int);
    if r2 > 0 {
        assert((r2 as int) as i64 == r2);
        let far = choose|far: bool| #[trigger]
            beyond_is(p, r2, coupling, far) && if far {
                call_ensures(P::zero, (&p,), v)
            } else {
                exists|a: P::Real, f: P::Real| #[trigger]
                    call_ensures(P::times, (&p, a, f), v) && repels(p, r2 as int, strength, screening, a) && tapered(
                        p,
                        r2 as int,
                        coupling,
                        hardness,
                        f,
                    )
            };
        lemma_beyond(p, n, r2, coupling, far, r);
        if !far {
            let (a, f) = choose|a: P::Real, f: P::Real| #[trigger]
                call_ensures(P::times, (&p, a, f), v) && repels(p, r2 as int, strength, screening, a) && tapered(
                    p,
                    r2 as int,
                    coupling,
                    hardness,
                    f,
                );
            lemma_repels(p, n, r2, strength, screening, a, r);
            let d = choose|d: P::Real| #[trigger] alpha_is(p, d, coupling, hardness, f) && call_ensures(P::root, (&p, r2), d);
            lemma_one_root((n.val)(d), r);
            lemma_profile(p, n, d, coupling, hardness, f);
        }
    }
}

/// What a painted cell casts: nothing on itself and beyond the coupling radius,
/// and else the screened repulsion, tapered off by the brush's profile.
pub proof fn law_casting_in_numbers<P: Physics>(
    p: P,
    n: Numbers<P::Real>,
    r2: i64,
    strength: P::Real,
    screening: P::Real,
    coupling: P::Real,
    hardness: P::Real,
    v: P::Real,
    r: real,
)
    requires
        computes(p, n),
        call_ensures(casting::<P>, (&p, r2, strength, screening, coupling, hardness), v),
        r >= 0 as real,
        r * r == whole(r2 as int),
    ensures
        (n.val)(v) == cast_at(n, r, (n.val)(strength), (n.val)(screening), (n.val)(coupling), (n.val)(hardness)),
{
    lemma_casting(p, n, r2, strength, screening, coupling, hardness, v, r);
}

pub proof fn lemma_cover<P: Physics>(
    p: P,
    n: Numbers<P::Real>,
    y: i64,
    x: i64,
    at: [P::Real; 2],
    radius: P::Real,
    hardness: P::Real,
    a: P::Real,
    d: real,
)
    requires
        computes(p, n),
        cover_is(p, y as int, x as int, at, radius, hardness, a),
        is_distance(d, whole(y as int) - (n.val)(at[0]), whole(x as int) - (n.val)(at[1])),
    ensures
        (n.val)(a) == profile_at(n, d, (n.val)(radius), (n.val)(hardness)),
{
    let e = choose|e: P::Real| #[trigger]
        alpha_is(p, e, radius, hardness, a) && call_ensures(P::distance, (&p, (y as int) as i64, (x as int) as i64, at), e);
    lemma_one_root((n.val)(e), d);
    lemma_profile(p, n, e, radius, hardness, a);
}

/// A stamp covers a cell by its profile at the distance of the cell.
pub proof fn law_cover_in_numbers<P: Physics>(
    p: P,
    n: Numbers<P::Real>,
    y: i64,
    x: i64,
    at: [P::Real; 2],
    radius: P::Real,
    hardness: P::Real,
    a: P::Real,
    d: real,
)
    requires
        computes(p, n),
        call_ensures(cover::<P>, (&p, y, x, at, radius, hardness), a),
        is_distance(d, whole(y as int) - (n.val)(at[0]), whole(x as int) - (n.val)(at[1])),
    ensures
        (n.val)(a) == profile_at(n, d, (n.val)(radius), (n.val)(hardness)),
{
    lemma_cover(p, n, y, x, at, radius, hardness, a, d);
}

/// The energy of the gas from the sum over all ordered pairs, each of which is
/// there twice, and the potential under its particles.
pub proof fn law_total_in_numbers<P: Physics>(p: P, n: Numbers<P::Real>, charge: P::Real, e_mm: P::Real, e_edge: P::Real, e: P::Real)
    requires
        computes(p, n),
        call_ensures(total::<P>, (&p, charge, e_mm, e_edge), e),
    ensures
        (n.val)(e) == (n.val)(charge) * (n.val)(charge) * ((n.val)(e_mm) / 2 as real) + (n.val)(charge) * (n.val)(e_edge),
{
    let (half, part, square) = choose|half: P::Real, part: P::Real, square: P::Real| #[trigger]
        total_by(p, charge, e_mm, e_edge, e, half, part, square);
    let (a, c) = choose|a: P::Real, c: P::Real| #[trigger]
        call_ensures(P::plus, (&p, a, c), e) && call_ensures(P::times, (&p, square, e_mm), a) && call_ensures(
            P::times,
            (&p, charge, e_edge),
            c,
        );
    let (q, hf, x) = ((n.val)(charge), (n.val)(half), (n.val)(e_mm));
    assert(hf * q * q * x == q * q * (x / 2 as real)) by (nonlinear_arith)
        requires
            hf + hf == 1 as real,
    ;
}

/// The energy that moves cost: the change of the interaction, by the square of
/// the charge, and of the potential under the movers, by the charge.
pub proof fn law_move_energy_in_numbers<P: Physics>(
    p: P,
    n: Numbers<P::Real>,
    charge: P::Real,
    e_new: P::Real,
    e_old: P::Real,
    du: P::Real,
    de: P::Real,
)
    requires
        computes(p, n),
        call_ensures(move_energy::<P>, (&p, charge, e_new, e_old, du), de),
    ensures
        (n.val)(de) == (n.val)(charge) * (n.val)(charge) * ((n.val)(e_new) - (n.val)(e_old)) + (n.val)(charge) * (n.val)(du),
{
    let (square, change) = choose|square: P::Real, change: P::Real| #[trigger]
        weighed(p, square, change, charge, du, de) && call_ensures(P::times, (&p, charge, charge), square) && call_ensures(
            P::minus,
            (&p, e_new, e_old),
            change,
        );
    let (a, b) = choose|a: P::Real, b: P::Real| #[trigger]
        call_ensures(P::plus, (&p, a, b), de) && call_ensures(P::times, (&p, square, change), a) && call_ensures(
            P::times,
            (&p, charge, du),
            b,
        );
}

/// The thermal energy at a temperature.
pub open spec fn heat_at<R>(n: Numbers<R>, temperature: real) -> real {
    n.kb * larger(temperature, n.least)
}

proof fn lemma_thermal<P: Physics>(p: P, n: Numbers<P::Real>, temperature: P::Real, kt: P::Real)
    requires
        computes(p, n),
        thermal_is(p, temperature, kt),
    ensures
        (n.val)(kt) == heat_at(n, (n.val)(temperature)),
        (n.val)(kt) > 0 as real,
{
    let (least, warm, kb) = choose|least: P::Real, warm: P::Real, kb: P::Real| #[trigger]
        thermal_by(p, temperature, kt, least, warm, kb);
    let (k, w) = ((n.val)(kb), (n.val)(warm));
    assert(k * w > 0 as real) by (nonlinear_arith)
        requires
            k > 0 as real,
            w > 0 as real,
    ;
}

/// The thermal energy is Boltzmann's constant times the temperature, which counts
/// for no less than the least one.
pub proof fn law_thermal_in_numbers<P: Physics>(p: P, n: Numbers<P::Real>, temperature: P::Real, kt: P::Real)
    requires
        computes(p, n),
        call_ensures(thermal::<P>, (&p, temperature), kt),
    ensures
        (n.val)(kt) == n.kb * larger((n.val)(temperature), n.least),
        (n.val)(kt) > 0 as real,
{
    lemma_thermal(p, n, temperature, kt);
}

/// Coldness times thermal energy is one.
pub proof fn law_coldness_in_numbers<P: Physics>(p: P, n: Numbers<P::Real>, temperature: P::Real, beta: P::Real)
    requires
        computes(p, n),
        call_ensures(coldness::<P>, (&p, temperature), beta),
    ensures
        (n.val)(beta) * (n.kb * larger((n.val)(temperature), n.least)) == 1 as real,
{
    lemma_coldness(p, n, temperature, beta);
}

pub proof fn lemma_coldness<P: Physics>(p: P, n: Numbers<P::Real>, temperature: P::Real, beta: P::Real)
    requires
        computes(p, n),
        coldness_is(p, temperature, beta),
    ensures
        (n.val)(beta) * heat_at(n, (n.val)(temperature)) == 1 as real,
        heat_at(n, (n.val)(temperature)) > 0 as real,
{
    let (one, kt) = choose|one: P::Real, kt: P::Real| #[trigger]
        call_ensures(P::quotient, (&p, one, kt), beta) && call_ensures(P::one, (&p,), one) && thermal_is(p, temperature, kt);
    lemma_thermal(p, n, temperature, kt);
    let (b, k) = ((n.val)(beta), (n.val)(kt));
    assert(b * k == 1 as real) by (nonlinear_arith)
        requires
            b == 1 as real / k,
            k > 0 as real,
    ;
}

proof fn lemma_odds<P: Physics>(p: P, n: Numbers<P::Real>, de: P::Real, kt: P::Real, odds: P::Real)
    requires
        computes(p, n),
        odds_are(p, de, kt, odds),
        (n.val)(kt) != 0 as real,
    ensures
        (n.val)(odds) == (n.exp)((-(n.val)(de)) / (n.val)(kt)),
{
    let (zero, gain, x) = choose|zero: P::Real, gain: P::Real, x: P::Real| #[trigger] odds_by(p, de, kt, odds, zero, gain, x);
    assert((n.val)(gain) == -(n.val)(de));
}

/// The odds of a move are the exponential of the energy that it costs, in thermal
/// energies, with its sign turned round.
pub proof fn law_odds_in_numbers<P: Physics>(p: P, n: Numbers<P::Real>, de: P::Real, kt: P::Real, odds: P::Real)
    requires
        computes(p, n),
        call_ensures(boltzmann::<P>, (&p, de, kt), odds),
        (n.val)(kt) != 0 as real,
    ensures
        (n.val)(odds) == (n.exp)((-(n.val)(de)) / (n.val)(kt)),
{
    lemma_odds(p, n, de, kt, odds);
}

/// Moves lead downhill, or along, if they cost nothing or less.
pub proof fn law_downhill_in_numbers<P: Physics>(p: P, n: Numbers<P::Real>, de: P::Real, down: bool)
    requires
        computes(p, n),
        call_ensures(downhill::<P>, (&p, de), down),
    ensures
        down <==> (n.val)(de) <= 0 as real,
{
}

/// The odds of a move that costs `de`, at a temperature.
pub open spec fn odds_at<R>(n: Numbers<R>, de: real, temperature: real) -> real {
    (n.exp)((-de) / heat_at(n, temperature))
}

pub proof fn lemma_lucky<P: Physics>(p: P, n: Numbers<P::Real>, de: P::Real, temperature: P::Real, word: u64, passes: bool)
    requires
        computes(p, n),
        lucky_is(p, de, temperature, word, passes),
    ensures
        passes <==> (n.rand)(word) < odds_at(n, (n.val)(de), (n.val)(temperature)),
{
    let (kt, r, odds) = choose|kt: P::Real, r: P::Real, odds: P::Real| #[trigger]
        lucky_by(p, de, temperature, word, passes, kt, r, odds);
    lemma_thermal(p, n, temperature, kt);
    lemma_odds(p, n, de, kt, odds);
}

/// A random word lets a move pass if and only if the number that it stands for is
/// below the Boltzmann factor of what the move costs at the temperature.
pub proof fn law_luck_in_numbers<P: Physics>(p: P, n: Numbers<P::Real>, de: P::Real, temperature: P::Real, word: u64, passes: bool)
    requires
        computes(p, n),
        call_ensures(lucky::<P>, (&p, de, temperature, word), passes),
    ensures
        passes <==> (n.rand)(word) < (n.exp)((-(n.val)(de)) / (n.kb * larger((n.val)(temperature), n.least))),
{
    lemma_lucky(p, n, de, temperature, word, passes);
}

/// The exponential of a sum is the product of the exponentials.
pub open spec fn multiplies(exp: spec_fn(real) -> real, a: real, b: real) -> bool {
    exp(a + b) == exp(a) * exp(b)
}

pub open spec fn is_exponential(exp: spec_fn(real) -> real) -> bool {
    &&& exp(0 as real) == 1 as real
    &&& forall|a: real, b: real| #[trigger] multiplies(exp, a, b)
}

/// How often a move is made, of the times that it is proposed.
pub open spec fn rate<R>(n: Numbers<R>, down: bool, odds: R) -> real {
    if down {
        1 as real
    } else {
        (n.val)(odds)
    }
}

/// Moves are in balance, in detail: between two states, as many moves go either
/// way, where states are as frequent as the exponentials of their energies, in
/// thermal energies, with the sign turned round.
pub proof fn law_moves_balance_in_detail<P: Physics>(
    p: P,
    n: Numbers<P::Real>,
    temperature: P::Real,
    kt: P::Real,
    there: P::Real,
    back: P::Real,
    down_there: bool,
    down_back: bool,
    odds_there: P::Real,
    odds_back: P::Real,
    energy: real,
)
    requires
        computes(p, n),
        is_exponential(n.exp),
        call_ensures(thermal::<P>, (&p, temperature), kt),
        (n.val)(back) == -(n.val)(there),
        call_ensures(downhill::<P>, (&p, there), down_there),
        call_ensures(downhill::<P>, (&p, back), down_back),
        call_ensures(boltzmann::<P>, (&p, there, kt), odds_there),
        call_ensures(boltzmann::<P>, (&p, back, kt), odds_back),
    ensures
        ({
            let heat = n.kb * larger((n.val)(temperature), n.least);
            let (here, over) = ((n.exp)((-energy) / heat), (n.exp)((-(energy + (n.val)(there))) / heat));
            here * rate(n, down_there, odds_there) == over * rate(n, down_back, odds_back)
        }),
{
    lemma_thermal(p, n, temperature, kt);
    lemma_odds(p, n, there, kt, odds_there);
    lemma_odds(p, n, back, kt, odds_back);
    let heat = heat_at(n, (n.val)(temperature));
    let de = (n.val)(there);
    let (e0, e1) = ((n.exp)((-energy) / heat), (n.exp)((-(energy + de)) / heat));
    let (up, down) = ((n.exp)((-de) / heat), (n.exp)((-(-de)) / heat));
    assert((-(energy + de)) / heat == (-energy) / heat + (-de) / heat && (-energy) / heat == (-(energy + de)) / heat + (-(-de)) / heat) by (nonlinear_arith)
        requires
            heat > 0 as real,
    ;
    assert(multiplies(n.exp, (-energy) / heat, (-de) / heat));
    assert(multiplies(n.exp, (-(energy + de)) / heat, (-(-de)) / heat));
    if de > 0 as real {
        assert(e0 * up == e1);
        assert(e1 * (1 as real) == e1) by (nonlinear_arith);
    } else if de < 0 as real {
        assert(e1 * down == e0);
        assert(e0 * (1 as real) == e0) by (nonlinear_arith);
    } else {
        assert((-energy) / heat == (-(energy + de)) / heat);
    }
}

/// The moves that are made per second.
pub proof fn law_pace_in_numbers<P: Physics>(p: P, n: Numbers<P::Real>, done: u64, batch: usize, seconds: P::Real, r: P::Real)
    requires
        computes(p, n),
        call_ensures(pace::<P>, (&p, done, batch, seconds), r),
        (n.val)(seconds) != 0 as real,
        batch <= u64::MAX,
    ensures
        (n.val)(r) * (n.val)(seconds) == whole(done as int) * whole(batch as int),
{
    lemma_pace(p, n, done, batch, seconds, r);
}

pub proof fn lemma_pace<P: Physics>(p: P, n: Numbers<P::Real>, done: u64, batch: usize, seconds: P::Real, r: P::Real)
    requires
        computes(p, n),
        pace_is(p, done, batch, seconds, r),
        (n.val)(seconds) != 0 as real,
        batch <= u64::MAX,
    ensures
        (n.val)(r) * (n.val)(seconds) == whole(done as int) * whole(batch as int),
{
    let (a, b, moves) = choose|a: P::Real, b: P::Real, moves: P::Real| #[trigger]
        call_ensures(P::times, (&p, a, b), moves) && call_ensures(P::count, (&p, done), a) && call_ensures(
            P::count,
            (&p, batch as u64),
            b,
        ) && call_ensures(P::quotient, (&p, moves, seconds), r);
    let (v, m, t) = ((n.val)(r), (n.val)(moves), (n.val)(seconds));
    assert(v * t == m) by (nonlinear_arith)
        requires
            v == m / t,
            t != 0 as real,
    ;
}

/// The radius of a stamp is half the thickness of the brush, and half a cell at
/// least.
pub proof fn law_radius_in_numbers<P: Physics>(p: P, n: Numbers<P::Real>, thickness: P::Real, r: P::Real)
    requires
        computes(p, n),
        call_ensures(stamp_radius::<P>, (&p, thickness), r),
    ensures
        (n.val)(r) + (n.val)(r) == larger((n.val)(thickness), 1 as real),
{
    lemma_radius(p, n, thickness, r);
}

pub proof fn lemma_radius<P: Physics>(p: P, n: Numbers<P::Real>, thickness: P::Real, r: P::Real)
    requires
        computes(p, n),
        radius_is(p, thickness, r),
    ensures
        (n.val)(r) + (n.val)(r) == larger((n.val)(thickness), 1 as real),
{
    let (half, plain) = choose|half: P::Real, plain: P::Real| #[trigger]
        call_ensures(P::greater, (&p, plain, half), r) && call_ensures(P::half, (&p,), half) && call_ensures(
            P::times,
            (&p, half, thickness),
            plain,
        );
    let (h, t) = ((n.val)(half), (n.val)(thickness));
    assert(h * t + h * t == t) by (nonlinear_arith)
        requires
            h + h == 1 as real,
    ;
}

/// What the charge of a stamp is shared out over: its radius, up to twice that for
/// hard stamps, and a speck at least.
pub open spec fn spread_over<R>(n: Numbers<R>, radius: real, hardness: real) -> real {
    larger(radius * (1 as real + to_unit(hardness)), n.speck)
}

/// The charge of a stamp at its centre, per dose, times what it is shared out over,
/// is the charge that the brush lays.
pub proof fn law_amplitude_in_numbers<P: Physics>(p: P, n: Numbers<P::Real>, brush: Brush<P::Real>, radius: P::Real, amp: P::Real)
    requires
        computes(p, n),
        call_ensures(amplitude::<P>, (&p, &brush, radius), amp),
    ensures
        (n.val)(amp) * spread_over(n, (n.val)(radius), (n.val)(brush.hardness)) == (n.val)(brush.sign) * (n.val)(brush.magnitude)
            * (n.val)(brush.density) * (n.val)(brush.flow),
{
    lemma_amplitude(p, n, brush, radius, amp);
}

pub proof fn lemma_amplitude<P: Physics>(p: P, n: Numbers<P::Real>, brush: Brush<P::Real>, radius: P::Real, amp: P::Real)
    requires
        computes(p, n),
        amplitude_is(p, brush, radius, amp),
    ensures
        (n.val)(amp) * spread_over(n, (n.val)(radius), (n.val)(brush.hardness)) == (n.val)(brush.sign) * (n.val)(brush.magnitude)
            * (n.val)(brush.density) * (n.val)(brush.flow),
{
    let (norm, a, b, c) = choose|norm: P::Real, a: P::Real, b: P::Real, c: P::Real| #[trigger]
        amplitude_by(p, brush, radius, amp, norm, a, b, c);
    let (hard, one, more, plain, speck) = choose|hard: P::Real, one: P::Real, more: P::Real, plain: P::Real, speck: P::Real| #[trigger]
        norm_by(p, radius, brush.hardness, norm, hard, one, more, plain, speck);
    lemma_clamp(p, n, brush.hardness, hard);
    let (v, m, t) = ((n.val)(amp), (n.val)(c), (n.val)(norm));
    assert(v * t == m) by (nonlinear_arith)
        requires
            v == m / t,
            t > 0 as real,
    ;
}

} // verus!

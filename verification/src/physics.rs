//! The real-valued quantities of the gas, and the arithmetic on them.

use crate::fold::{fold_all, folded};
use vstd::prelude::*;

verus! {

/// Interaction and annealing parameters of a lattice gas.
#[derive(Debug, Clone, Copy)]
pub struct Params<R> {
    pub h: usize,
    pub w: usize,
    pub seed: u64,
    pub strength: R,
    pub screening: R,
    pub cutoff: R,
    pub periodic: bool,
    pub charge: R,
    /// Short-range attraction, between mobile particles only.
    pub attract_depth: R,
    pub attract_range: R,
    pub temperature: R,
    pub batch: usize,
    pub batch_min: usize,
    pub batch_decrement: usize,
    pub fail_limit: usize,
    pub step_size: i32,
}

/// Brush settings for one stroke, in lattice cells.
#[derive(Debug, Clone, Copy)]
pub struct Brush<R> {
    pub sign: R,
    pub magnitude: R,
    pub density: R,
    pub thickness: R,
    pub flow: R,
    pub hardness: R,
    pub penetrability: R,
    pub coupling: R,
}

/// Counters and gauges of a run.
#[derive(Debug, Clone, Copy)]
pub struct Stats<R> {
    pub iteration: u64,
    /// Iterations that came to at least one legal move.
    pub proposed: u64,
    /// Proposals that passed the Boltzmann test.
    pub accepted: u64,
    /// Iterations that came to no legal move.
    pub dead_proposals: u64,
    pub fail_streak: u32,
    pub batch: usize,
    pub particles: usize,
    pub energy: R,
    pub temperature: R,
}

/// What one call of the brush did.
#[derive(Debug, Clone, Copy)]
pub struct PaintReport<R> {
    pub painted_cells: usize,
    pub charge: R,
    pub blocked_new: usize,
    pub de_field: R,
}

/// Arithmetic on real numbers, and the constants of the gas. No method promises
/// anything of its result: what holds of the library holds for every choice.
pub trait Physics {
    type Real: Copy;

    /// A coefficient of a spectrum.
    type Wave: Copy;

    fn zero(&self) -> Self::Real;

    fn half(&self) -> Self::Real;

    fn one(&self) -> Self::Real;

    fn plus(&self, a: Self::Real, b: Self::Real) -> Self::Real;

    fn minus(&self, a: Self::Real, b: Self::Real) -> Self::Real;

    fn times(&self, a: Self::Real, b: Self::Real) -> Self::Real;

    fn quotient(&self, a: Self::Real, b: Self::Real) -> Self::Real;

    /// `v` without its sign.
    fn size(&self, v: Self::Real) -> Self::Real;

    /// A number next to nothing, to divide by in place of nothing.
    fn tiny(&self) -> Self::Real;

    /// Numbers smaller than this are the noise of earlier sums.
    fn noise(&self) -> Self::Real;

    /// Half the way around a circle, in radii.
    fn pi(&self) -> Self::Real;

    fn cosine(&self, v: Self::Real) -> Self::Real;

    /// `a` over `b`.
    fn ratio(&self, a: u64, b: u64) -> Self::Real;

    /// A count as a number.
    fn count(&self, n: u64) -> Self::Real;

    /// `total` shared out evenly over `n`.
    fn share(&self, total: Self::Real, n: usize) -> Self::Real;

    /// `v` in single precision.
    fn narrow(&self, v: Self::Real) -> Self::Real;

    fn exceeds(&self, a: Self::Real, b: Self::Real) -> bool;

    fn at_most(&self, a: Self::Real, b: Self::Real) -> bool;

    /// `v` is zero.
    fn vanishes(&self, v: Self::Real) -> bool;

    fn lesser(&self, a: Self::Real, b: Self::Real) -> Self::Real;

    fn greater(&self, a: Self::Real, b: Self::Real) -> Self::Real;

    /// A number below all others, where a search for the greatest starts.
    fn lowest(&self) -> Self::Real;

    /// A number above all others, where a search for the least starts.
    fn highest(&self) -> Self::Real;

    fn floor(&self, v: Self::Real) -> i64;

    fn ceil(&self, v: Self::Real) -> i64;

    /// A distance with the square `r2`.
    fn root(&self, r2: i64) -> Self::Real;

    /// The distance of cell `(y, x)` from the point `at`.
    fn distance(&self, y: i64, x: i64, at: [Self::Real; 2]) -> Self::Real;

    /// The thermal energy per degree.
    fn boltzmann_constant(&self) -> Self::Real;

    /// The temperature below which there is none.
    fn least_temperature(&self) -> Self::Real;

    fn exponential(&self, v: Self::Real) -> Self::Real;

    /// The number between zero and one that a random word stands for.
    fn uniform(&self, word: u64) -> Self::Real;

    /// How far apart stamps are, and the dose of the one that opens a stroke.
    fn spacing(&self) -> Self::Real;

    /// The length of the way from `a` to `b`.
    fn way(&self, a: [Self::Real; 2], b: [Self::Real; 2]) -> Self::Real;

    /// The least that the charge of a stamp is shared out over.
    fn speck(&self) -> Self::Real;

    /// A real number as a coefficient.
    fn lift(&self, v: Self::Real) -> Self::Wave;

    /// The discrete Fourier transform of `line`, or the unscaled inverse of it.
    fn transform(&self, line: Vec<Self::Wave>, inverse: bool) -> Vec<Self::Wave>;

    fn product(&self, a: Self::Wave, b: Self::Wave) -> Self::Wave;

    /// The real part of `v`, over `n`.
    fn settle(&self, v: Self::Wave, n: usize) -> Self::Real;
}

impl<R: Copy> Stats<R> {
    /// The share of proposals that were accepted, zero before the first.
    pub fn acceptance<P: Physics<Real = R>>(&self, p: &P) -> (r: R)
        ensures
            if self.proposed == 0 {
                call_ensures(P::zero, (p,), r)
            } else {
                call_ensures(P::ratio, (p, self.accepted, self.proposed), r)
            },
    {
        if self.proposed == 0 {
            p.zero()
        } else {
            p.ratio(self.accepted, self.proposed)
        }
    }
}

/// One term more on a sum.
pub open spec fn plus_step<P: Physics>(p: P) -> spec_fn(P::Real, P::Real, P::Real) -> bool {
    |a: P::Real, b: P::Real, r: P::Real| call_ensures(P::plus, (&p, a, b), r)
}

/// `r` is what adding up `terms` from zero, first to last, may come to.
pub open spec fn summed<P: Physics>(p: P, terms: Seq<P::Real>, r: P::Real) -> bool {
    exists|z: P::Real| #[trigger] call_ensures(P::zero, (&p,), z) && folded(plus_step(p), z, terms, r)
}

/// Adds up `terms`, first to last.
pub fn sum<P: Physics>(p: &P, terms: &Vec<P::Real>) -> (r: P::Real)
    ensures
        summed(*p, terms@, r),
{
    let zero = p.zero();
    let add = |a: P::Real, b: P::Real| -> (r: P::Real)
        ensures
            call_ensures(P::plus, (p, a, b), r),
        { p.plus(a, b) };
    let r = fold_all(&add, zero, terms, Ghost(plus_step(*p)));
    assert(call_ensures(P::zero, (p,), zero));
    r
}

} // verus!

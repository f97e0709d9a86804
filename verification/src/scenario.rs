//! Scripted runs of the gas, and what is measured on them.

use crate::anneal::stepped;
use crate::convolve::field_fits;
use crate::fold::{folded, lemma_folded_empty, lemma_folded_push, partials};
use crate::formulas::{
    agrees, agrees_is, law_agreement_in_numbers, law_straying_in_numbers, magnitude, measures, strays, strays_is,
};
use crate::paint::paints;
use crate::physics::{sum, summed, Brush, PaintReport, Params, Physics};
use crate::scene::{geometry_fits, has_geometry, set_up_blank};
use crate::sim::{Gas, Sim};
use crate::spectrum::keeps_length;
use crate::stroke::TooLarge;
use crate::terms::reach_is;
use vstd::prelude::*;

verus! {

/// One stage of a scenario: strokes to paint, and how long to anneal at which
/// temperature.
#[derive(Debug)]
pub struct Stage<R> {
    pub temperature: R,
    pub iterations: u64,
    pub strokes: Vec<Vec<[R; 2]>>,
    pub brush: Option<Brush<R>>,
    pub energy_sample_every: u64,
}

/// A scripted run, as independent chains.
#[derive(Debug)]
pub struct Scenario<R> {
    pub h: usize,
    pub w: usize,
    pub seed: u64,
    pub particles: usize,
    pub cutoff: R,
    pub screening: R,
    pub charge: R,
    pub strength: R,
    pub attract_depth: R,
    pub attract_range: R,
    pub periodic: bool,
    pub batch: usize,
    pub batch_min: usize,
    pub batch_decrement: usize,
    pub fail_limit: usize,
    pub step_size: i32,
    pub stages: Vec<Stage<R>>,
    pub accept_tol: R,
    pub energy_tol: R,
    pub chains: usize,
    /// The brush of stages that bring none.
    pub plain_brush: Brush<R>,
    /// The temperature of a scenario without stages.
    pub plain_temperature: R,
}

/// What is measured on a stage.
#[derive(Debug, Clone, Copy)]
pub struct StageResult<R> {
    pub stage: usize,
    pub temperature: R,
    pub iterations: u64,
    pub proposed: u64,
    pub accepted: u64,
    pub acceptance: R,
    pub energy: R,
    /// The mean of the energies sampled over the second half of the stage.
    pub energy_mean_tail: R,
    pub particles: usize,
}

/// What is measured on a run.
#[derive(Debug)]
pub struct RunResult<R> {
    pub stages: Vec<StageResult<R>>,
    pub final_energy: R,
    pub final_particles: usize,
}

/// The defaults of the whole-number settings of a scenario.
pub fn sixtyfour() -> (r: usize)
    ensures
        r == 64,
{
    64
}

pub fn one_us() -> (r: usize)
    ensures
        r == 1,
{
    1
}

pub fn twelve_us() -> (r: usize)
    ensures
        r == 12,
{
    12
}

pub fn two_i32() -> (r: i32)
    ensures
        r == 2,
{
    2
}

pub fn fifty() -> (r: u64)
    ensures
        r == 50,
{
    50
}

/// How far the seeds of two chains in a row are apart.
pub const SEED_STRIDE: u64 = 997;

impl<R> Scenario<R> {
    /// The seed of a chain.
    pub open spec fn chain_seed(self, chain: int) -> int {
        (self.seed + chain * SEED_STRIDE) % 0x1_0000_0000_0000_0000
    }

    /// The parameters of a chain.
    pub open spec fn chain_params(self, chain: int) -> Params<R> {
        Params {
            h: self.h,
            w: self.w,
            seed: self.chain_seed(chain) as u64,
            strength: self.strength,
            screening: self.screening,
            cutoff: self.cutoff,
            periodic: self.periodic,
            charge: self.charge,
            attract_depth: self.attract_depth,
            attract_range: self.attract_range,
            temperature: if self.stages@.len() > 0 {
                self.stages@[0].temperature
            } else {
                self.plain_temperature
            },
            batch: self.batch,
            batch_min: self.batch_min,
            batch_decrement: self.batch_decrement,
            fail_limit: self.fail_limit,
            step_size: self.step_size,
        }
    }

    /// The brush of a stage.
    pub open spec fn brush_of(self, i: int) -> Brush<R> {
        match self.stages@[i].brush {
            Some(brush) => brush,
            None => self.plain_brush,
        }
    }

    /// How many iterations the first `n` stages take together.
    pub open spec fn iterations_to(self, n: int) -> int
        decreases n,
    {
        if n <= 0 {
            0
        } else {
            self.iterations_to(n - 1) + self.stages@[n - 1].iterations
        }
    }

    pub open spec fn chain_count(self) -> int {
        if self.chains > 1 {
            self.chains as int
        } else {
            1
        }
    }

    /// The scenario can be run: it fits the machine, and stages that anneal
    /// take samples every so often.
    pub open spec fn wf(self) -> bool {
        &&& geometry_fits(self.chain_params(0))
        &&& self.h * self.w <= usize::MAX
        &&& self.fail_limit <= u32::MAX || self.iterations_to(self.stages@.len() as int) <= u32::MAX
        &&& self.chains * SEED_STRIDE <= u64::MAX
        &&& self.chain_count() * self.iterations_to(self.stages@.len() as int) <= u64::MAX
        &&& forall|i: int|
            0 <= i < self.stages@.len() ==> (#[trigger] self.stages@[i]).iterations == 0 || self.stages@[i].energy_sample_every
                > 0
    }
}

impl<R: Copy> Scenario<R> {
    /// Whether the scenario can be run.
    pub fn can_be_run(&self) -> (r: bool)
        ensures
            r == self.wf(),
    {
        let params = Params {
            h: self.h,
            w: self.w,
            seed: self.seed,
            strength: self.strength,
            screening: self.screening,
            cutoff: self.cutoff,
            periodic: self.periodic,
            charge: self.charge,
            attract_depth: self.attract_depth,
            attract_range: self.attract_range,
            temperature: self.plain_temperature,
            batch: self.batch,
            batch_min: self.batch_min,
            batch_decrement: self.batch_decrement,
            fail_limit: self.fail_limit,
            step_size: self.step_size,
        };
        if !has_geometry(&params) || self.h.checked_mul(self.w).is_none() {
            return false;
        }
        let chains: u64 = if self.chains > 1 { self.chains as u64 } else { 1 };
        if (self.chains as u64).checked_mul(SEED_STRIDE).is_none() {
            return false;
        }
        let mut most: u64 = u64::MAX / chains;
        let ghost limit = most as int;
        let mut taken: u64 = 0;
        proof {
            vstd::arithmetic::div_mod::lemma_fundamental_div_mod(u64::MAX as int, chains as int);
        }
        let mut i: usize = 0;
        while i < self.stages.len()
            invariant
                i <= self.stages@.len(),
                most == limit - self.iterations_to(i as int),
                taken == self.iterations_to(i as int),
                limit <= u64::MAX,
                chains == self.chain_count(),
                chains >= 1,
                limit == u64::MAX as int / chains as int,
                u64::MAX == chains * limit + u64::MAX as int % chains as int,
                forall|k: int|
                    0 <= k < i ==> (#[trigger] self.stages@[k]).iterations == 0 || self.stages@[k].energy_sample_every > 0,
            decreases self.stages@.len() - i,
        {
            if self.stages[i].iterations > 0 && self.stages[i].energy_sample_every == 0 {
                return false;
            }
            if self.stages[i].iterations > most {
                proof {
                    lemma_iterations_grow(*self, i + 1, self.stages@.len() as int);
                    lemma_over_the_limit(chains as int, limit, self.iterations_to(self.stages@.len() as int));
                }
                return false;
            }
            most = most - self.stages[i].iterations;
            taken = taken + self.stages[i].iterations;
            i = i + 1;
        }
        proof {
            assert(chains * taken <= chains * limit) by (nonlinear_arith)
                requires
                    taken <= limit,
                    chains >= 1,
            ;
        }
        self.fail_limit as u64 <= u32::MAX as u64 || taken <= u32::MAX as u64
    }
}

/// Later stages only add iterations.
pub proof fn lemma_iterations_grow<R>(sc: Scenario<R>, i: int, j: int)
    requires
        0 <= i <= j,
    ensures
        0 <= sc.iterations_to(i) <= sc.iterations_to(j),
    decreases j,
{
    if i < j {
        lemma_iterations_grow(sc, i, j - 1);
    } else if i > 0 {
        lemma_iterations_grow(sc, i - 1, j - 1);
    }
}

proof fn lemma_over_the_limit(chains: int, limit: int, taken: int)
    requires
        chains >= 1,
        limit == u64::MAX as int / chains,
        taken > limit,
    ensures
        chains * taken > u64::MAX,
{
    vstd::arithmetic::div_mod::lemma_fundamental_div_mod(u64::MAX as int, chains);
    assert(chains * taken >= chains * limit + chains) by (nonlinear_arith)
        requires
            taken >= limit + 1,
            chains >= 1,
    ;
}

/// One stroke of a brush more is painted.
pub open spec fn painting<P: Physics>(p: P, brush: Brush<P::Real>) -> spec_fn(Sim<P::Real>, Vec<[P::Real; 2]>, Sim<P::Real>) -> bool {
    |a: Sim<P::Real>, points: Vec<[P::Real; 2]>, b: Sim<P::Real>|
        exists|report: PaintReport<P::Real>| #[trigger] painted_with(p, brush, a, points@, b, report)
}

pub open spec fn painted_with<P: Physics>(
    p: P,
    brush: Brush<P::Real>,
    a: Sim<P::Real>,
    points: Seq<[P::Real; 2]>,
    b: Sim<P::Real>,
    report: PaintReport<P::Real>,
) -> bool {
    paints(p, a, b, points, brush, true, Ok::<PaintReport<P::Real>, TooLarge>(report))
}

/// `after` is what `n` iterations make of `gas`, and `history` holds the
/// energies after the first of them and every `every` further on.
pub open spec fn sampled<P: Physics>(p: P, gas: Gas<P::Real>, n: nat, every: int, after: Gas<P::Real>, history: Seq<P::Real>) -> bool
    decreases n,
{
    if n == 0 {
        after == gas && history.len() == 0
    } else {
        exists|mid: Gas<P::Real>, took: bool| #[trigger]
            stepped(p, mid, after, took) && if (n - 1) % every == 0 {
                &&& history.len() > 0
                &&& history.last() == after.energy
                &&& sampled(p, gas, (n - 1) as nat, every, mid, history.drop_last())
            } else {
                sampled(p, gas, (n - 1) as nat, every, mid, history)
            }
    }
}

/// `mean` is the mean of `values`.
pub open spec fn averaged<P: Physics>(p: P, values: Seq<P::Real>, mean: P::Real) -> bool {
    exists|total: P::Real| #[trigger] summed(p, values, total) && call_ensures(P::share, (&p, total, values.len() as usize), mean)
}

/// `rate` is the share that `accepted` has in `proposed`, zero if that is none.
pub open spec fn rated<P: Physics>(p: P, accepted: u64, proposed: u64, rate: P::Real) -> bool {
    if proposed == 0 {
        call_ensures(P::zero, (&p,), rate)
    } else {
        call_ensures(P::ratio, (&p, accepted, proposed), rate)
    }
}

/// What is left of `a` after `b` is taken off it.
pub open spec fn since(a: u64, b: u64) -> int {
    if a > b {
        a - b
    } else {
        0
    }
}

/// `s1` is what stage `i` makes of `s0`, and `r` is what is measured on it.
pub open spec fn staged<P: Physics>(
    p: P,
    stage: Stage<P::Real>,
    brush: Brush<P::Real>,
    i: int,
    s0: Sim<P::Real>,
    s1: Sim<P::Real>,
    r: StageResult<P::Real>,
) -> bool {
    exists|painted: Sim<P::Real>, history: Seq<P::Real>| #[trigger] staged_by(p, stage, brush, i, s0, s1, r, painted, history)
}

pub open spec fn staged_by<P: Physics>(
    p: P,
    stage: Stage<P::Real>,
    brush: Brush<P::Real>,
    i: int,
    s0: Sim<P::Real>,
    s1: Sim<P::Real>,
    r: StageResult<P::Real>,
    painted: Sim<P::Real>,
    history: Seq<P::Real>,
) -> bool {
    let set = Sim { params: Params { temperature: stage.temperature, ..s0.params }, ..s0 };
    let tail = history.skip(history.len() as int / 2);
    &&& folded(painting(p, brush), set, stage.strokes@, painted)
    &&& sampled(p, painted@, stage.iterations as nat, stage.energy_sample_every as int, s1@, history)
    &&& s1.same_scene(painted)
    &&& r.stage == i
    &&& r.temperature == stage.temperature
    &&& r.iterations == stage.iterations
    &&& r.proposed == since(s1.proposed, s0.proposed)
    &&& r.accepted == since(s1.accepted, s0.accepted)
    &&& rated(p, r.accepted, r.proposed, r.acceptance)
    &&& r.energy == s1.energy
    &&& if tail.len() == 0 {
        r.energy_mean_tail == s1.energy
    } else {
        averaged(p, tail, r.energy_mean_tail)
    }
    &&& r.particles == s1.pos@.len()
}

/// A stroke was refused: it, or the potential that it casts, reaches over more
/// cells than the machine has room for.
pub open spec fn stroke_refused<P: Physics>(p: P, sc: Scenario<P::Real>) -> bool {
    exists|s: Sim<P::Real>, i: int, j: int| #[trigger] refused_at(p, sc, s, i, j)
}

pub open spec fn refused_at<P: Physics>(p: P, sc: Scenario<P::Real>, s: Sim<P::Real>, i: int, j: int) -> bool {
    &&& 0 <= i < sc.stages@.len()
    &&& 0 <= j < sc.stages@[i].strokes@.len()
    &&& paints(
        p,
        s,
        s,
        sc.stages@[i].strokes@[j]@,
        sc.brush_of(i),
        true,
        Err::<PaintReport<P::Real>, TooLarge>(TooLarge),
    )
}

/// The cutoff reaches over more cells than the machine has room for.
pub open spec fn cutoff_refused<P: Physics>(p: P, sc: Scenario<P::Real>) -> bool {
    exists|rc: usize| #[trigger]
        reach_is(p, sc.cutoff, rc) && !field_fits(sc.h as int, sc.w as int, rc as int, sc.periodic)
}

fn mean<P: Physics>(p: &P, values: &Vec<P::Real>) -> (m: P::Real)
    ensures
        averaged(*p, values@, m),
{
    let total = sum(p, values);
    let m = p.share(total, values.len());
    assert(summed(*p, values@, total));
    m
}

fn rate<P: Physics>(p: &P, accepted: u64, proposed: u64) -> (r: P::Real)
    ensures
        rated(*p, accepted, proposed, r),
{
    if proposed == 0 {
        p.zero()
    } else {
        p.ratio(accepted, proposed)
    }
}

/// Paints all strokes of a stage.
fn paint_all<P: Physics>(
    p: &P,
    sim: &mut Sim<P::Real>,
    strokes: &Vec<Vec<[P::Real; 2]>>,
    brush: &Brush<P::Real>,
    Ghost(sc): Ghost<Scenario<P::Real>>,
    Ghost(i): Ghost<int>,
) -> (r: Result<(), TooLarge>)
    requires
        keeps_length(*p),
        old(sim).wf(),
        0 <= i < sc.stages@.len(),
        sc.stages@[i].strokes == *strokes,
        sc.brush_of(i) == *brush,
    ensures
        final(sim).wf(),
        final(sim).iteration == old(sim).iteration,
        final(sim).params == old(sim).params,
        final(sim).proposed == old(sim).proposed,
        final(sim).accepted == old(sim).accepted,
        r is Ok ==> folded(painting(*p, *brush), *old(sim), strokes@, *final(sim)),
        r is Err ==> stroke_refused(*p, sc),
{
    let ghost start = *sim;
    proof {
        lemma_folded_empty::<Sim<P::Real>, Vec<[P::Real; 2]>>(painting(*p, *brush), start);
        assert(strokes@.take(0) =~= Seq::empty());
    }
    let mut j: usize = 0;
    while j < strokes.len()
        invariant
            j <= strokes@.len(),
            keeps_length(*p),
            start == *old(sim),
            sim.wf(),
            sim.iteration == start.iteration,
            sim.params == start.params,
            sim.proposed == start.proposed,
            sim.accepted == start.accepted,
            0 <= i < sc.stages@.len(),
            sc.stages@[i].strokes == *strokes,
            sc.brush_of(i) == *brush,
            folded(painting(*p, *brush), start, strokes@.take(j as int), *sim),
        decreases strokes@.len() - j,
    {
        let ghost before = *sim;
        let points = &strokes[j];
        let r = sim.paint_stroke(p, points, brush, true);
        match r {
            Err(_) => {
                assert(refused_at(*p, sc, before, i, j as int));
                return Err(TooLarge);
            },
            Ok(report) => {
                proof {
                    assert(painted_with(*p, *brush, before, points@, *sim, report));
                    lemma_folded_push(
                        painting(*p, *brush),
                        start,
                        strokes@.take(j as int),
                        before,
                        strokes@[j as int],
                        *sim,
                    );
                    assert(strokes@.take(j as int).push(strokes@[j as int]) =~= strokes@.take(j + 1));
                }
            },
        }
        j = j + 1;
    }
    assert(strokes@.take(j as int) =~= strokes@);
    Ok(())
}

/// Anneals for `n` iterations, and keeps the energies after the first and every
/// `every` further on.
fn anneal_sampled<P: Physics>(p: &P, sim: &mut Sim<P::Real>, n: u64, every: u64) -> (history: Vec<P::Real>)
    requires
        old(sim).wf(),
        old(sim).iteration + n <= u64::MAX,
        old(sim).params.fail_limit <= u32::MAX || old(sim).iteration + n <= u32::MAX,
        n > 0 ==> every > 0,
    ensures
        final(sim).wf(),
        final(sim).same_scene(*old(sim)),
        final(sim).params == old(sim).params,
        final(sim).iteration == old(sim).iteration + n,
        sampled(*p, old(sim)@, n as nat, every as int, final(sim)@, history@),
{
    let ghost start = *sim;
    let mut history: Vec<P::Real> = Vec::new();
    let mut k: u64 = 0;
    while k < n
        invariant
            k <= n,
            every > 0 || n == 0,
            start == *old(sim),
            sim.wf(),
            sim.same_scene(start),
            sim.params == start.params,
            sim.params.fail_limit <= u32::MAX || start.iteration + n <= u32::MAX,
            sim.iteration == start.iteration + k,
            start.iteration + n <= u64::MAX,
            sampled(*p, start@, k as nat, every as int, sim@, history@),
        decreases n - k,
    {
        let ghost mid = sim@;
        let ghost before = history@;
        assert(sim.fail_streak <= sim.iteration);
        let took = sim.step(p);
        if k % every == 0 {
            history.push(sim.energy);
            assert(history@.drop_last() =~= before);
        }
        proof {
            assert(stepped(*p, mid, sim@, took));
            assert(k as int % every as int == (k % every) as int);
        }
        k = k + 1;
    }
    history
}

/// Runs one stage, and measures it.
fn run_stage<P: Physics>(p: &P, sc: &Scenario<P::Real>, i: usize, sim: &mut Sim<P::Real>) -> (r: Result<
    StageResult<P::Real>,
    TooLarge,
>)
    requires
        keeps_length(*p),
        sc.wf(),
        i < sc.stages@.len(),
        old(sim).wf(),
        old(sim).iteration == sc.iterations_to(i as int),
        old(sim).params.fail_limit == sc.fail_limit,
    ensures
        final(sim).wf(),
        r matches Ok(result) ==> {
            &&& final(sim).iteration == old(sim).iteration + sc.stages@[i as int].iterations
            &&& final(sim).params.fail_limit == sc.fail_limit
            &&& staged(*p, sc.stages@[i as int], sc.brush_of(i as int), i as int, *old(sim), *final(sim), result)
            &&& result.proposed <= sc.stages@[i as int].iterations
            &&& result.accepted <= result.proposed
        },
        r is Err ==> stroke_refused(*p, *sc),
{
    let ghost s0 = *sim;
    proof {
        lemma_chain_counted(*sc);
        lemma_iterations_to(*sc, i + 1, sc.stages@.len() as int);
    }
    let stage = &sc.stages[i];
    let (proposed, accepted) = (sim.proposed, sim.accepted);
    sim.set_temperature(stage.temperature);
    let brush = match stage.brush {
        Some(brush) => brush,
        None => sc.plain_brush,
    };
    let done = paint_all(p, sim, &stage.strokes, &brush, Ghost(*sc), Ghost(i as int));
    if done.is_err() {
        return Err(TooLarge);
    }
    let ghost painted = *sim;
    let history = anneal_sampled(p, sim, stage.iterations, stage.energy_sample_every);
    let half = history.len() / 2;
    let mut tail: Vec<P::Real> = Vec::with_capacity(history.len() - half);
    let mut k: usize = half;
    while k < history.len()
        invariant
            half <= k <= history@.len(),
            tail@ =~= history@.subrange(half as int, k as int),
        decreases history@.len() - k,
    {
        tail.push(history[k]);
        k = k + 1;
    }
    assert(tail@ =~= history@.skip(half as int));
    let energy_mean_tail = if tail.len() == 0 { sim.energy } else { mean(p, &tail) };
    let dp: u64 = if sim.proposed > proposed { sim.proposed - proposed } else { 0 };
    let da: u64 = if sim.accepted > accepted { sim.accepted - accepted } else { 0 };
    let result = StageResult {
        stage: i,
        temperature: stage.temperature,
        iterations: stage.iterations,
        proposed: dp,
        accepted: da,
        acceptance: rate(p, da, dp),
        energy: sim.energy,
        energy_mean_tail,
        particles: sim.pos.len(),
    };
    proof {
        lemma_sampled_counts(*p, painted@, stage.iterations as nat, stage.energy_sample_every as int, sim@, history@);
        assert(staged_by(*p, *stage, brush, i as int, s0, *sim, result, painted, history@));
    }
    Ok(result)
}

/// Annealing adds no more to the count of proposals than it has iterations, and
/// no more to that of acceptances than to that of proposals.
proof fn lemma_sampled_counts<P: Physics>(p: P, gas: Gas<P::Real>, n: nat, every: int, after: Gas<P::Real>, history: Seq<P::Real>)
    requires
        sampled(p, gas, n, every, after, history),
        gas.proposed + n <= u64::MAX,
        gas.accepted <= gas.proposed,
    ensures
        gas.proposed <= after.proposed <= gas.proposed + n,
        0 <= after.accepted - gas.accepted <= after.proposed - gas.proposed,
    decreases n,
{
    if n > 0 {
        let (mid, took) = choose|mid: Gas<P::Real>, took: bool| #[trigger]
            stepped(p, mid, after, took) && if (n - 1) % every == 0 {
                &&& history.len() > 0
                &&& history.last() == after.energy
                &&& sampled(p, gas, (n - 1) as nat, every, mid, history.drop_last())
            } else {
                sampled(p, gas, (n - 1) as nat, every, mid, history)
            };
        let less = if (n - 1) % every == 0 {
            history.drop_last()
        } else {
            history
        };
        lemma_sampled_counts(p, gas, (n - 1) as nat, every, mid, less);
    }
}

/// What is measured on one chain.
#[derive(Debug)]
pub struct Chain<R> {
    pub stages: Vec<StageResult<R>>,
    pub energy: R,
    pub particles: usize,
}

/// `c` is what is measured on a chain of the scenario: the stages follow one
/// another, from a blank canvas on.
pub open spec fn chained<P: Physics>(p: P, sc: Scenario<P::Real>, chain: int, c: Chain<P::Real>) -> bool {
    exists|sims: Seq<Sim<P::Real>>| #[trigger] chained_by(p, sc, chain, c.stages@, sims) && c.energy == sims.last().energy && c.particles
        == sims.last().pos@.len() && c.stages@.len() == sc.stages@.len()
}

pub open spec fn chained_by<P: Physics>(
    p: P,
    sc: Scenario<P::Real>,
    chain: int,
    results: Seq<StageResult<P::Real>>,
    sims: Seq<Sim<P::Real>>,
) -> bool {
    &&& sims.len() == results.len() + 1
    &&& set_up_blank(p, sc.chain_params(chain), sc.particles as int, sims[0])
    &&& forall|i: int|
        #![trigger results[i]]
        0 <= i < results.len() ==> staged(p, sc.stages@[i], sc.brush_of(i), i, sims[i], sims[i + 1], results[i])
}

/// Earlier stages take no more iterations than all.
proof fn lemma_iterations_to<R>(sc: Scenario<R>, i: int, n: int)
    requires
        0 <= i <= n,
    ensures
        0 <= sc.iterations_to(i) <= sc.iterations_to(n),
    decreases n,
{
    if i < n {
        lemma_iterations_to(sc, i, n - 1);
    } else if n > 0 {
        lemma_iterations_to(sc, i - 1, n - 1);
    }
}

/// All iterations of one chain can be counted.
proof fn lemma_chain_counted<R>(sc: Scenario<R>)
    requires
        sc.wf(),
    ensures
        0 <= sc.iterations_to(sc.stages@.len() as int) <= u64::MAX,
{
    let n = sc.iterations_to(sc.stages@.len() as int);
    let k = sc.chain_count();
    lemma_iterations_to(sc, 0, sc.stages@.len() as int);
    assert(n <= k * n) by (nonlinear_arith)
        requires
            k >= 1,
            n >= 0,
    ;
}

/// The results of a chain stay within the iterations of its stages.
pub open spec fn within_stages<R>(sc: Scenario<R>, results: Seq<StageResult<R>>) -> bool {
    forall|i: int|
        0 <= i < results.len() ==> (#[trigger] results[i]).proposed <= sc.stages@[i].iterations && results[i].accepted
            <= results[i].proposed
}

/// The parameters of a chain.
fn params_of<R: Copy>(sc: &Scenario<R>, chain: usize) -> (params: Params<R>)
    requires
        sc.wf(),
        chain < sc.chain_count(),
    ensures
        params == sc.chain_params(chain as int),
{
    proof {
        assert(chain * SEED_STRIDE <= u64::MAX) by (nonlinear_arith)
            requires
                chain < sc.chain_count(),
                sc.chain_count() == 1 || sc.chain_count() == sc.chains,
                sc.chains * SEED_STRIDE <= u64::MAX,
                SEED_STRIDE == 997,
        ;
    }
    let seed = sc.seed.wrapping_add(chain as u64 * SEED_STRIDE);
    assert(seed == sc.chain_seed(chain as int));
    Params {
        h: sc.h,
        w: sc.w,
        seed,
        strength: sc.strength,
        screening: sc.screening,
        cutoff: sc.cutoff,
        periodic: sc.periodic,
        charge: sc.charge,
        attract_depth: sc.attract_depth,
        attract_range: sc.attract_range,
        temperature: if sc.stages.len() > 0 { sc.stages[0].temperature } else { sc.plain_temperature },
        batch: sc.batch,
        batch_min: sc.batch_min,
        batch_decrement: sc.batch_decrement,
        fail_limit: sc.fail_limit,
        step_size: sc.step_size,
    }
}

/// Runs one chain of a scenario.
pub fn run_chain<P: Physics>(p: &P, sc: &Scenario<P::Real>, chain: usize) -> (r: Result<Chain<P::Real>, TooLarge>)
    requires
        keeps_length(*p),
        sc.wf(),
        chain < sc.chain_count(),
    ensures
        r matches Ok(c) ==> chained(*p, *sc, chain as int, c) && within_stages(*sc, c.stages@),
        r is Err ==> cutoff_refused(*p, *sc) || stroke_refused(*p, *sc),
{
    let params = params_of(sc, chain);
    let mut sim = match Sim::new_blank(p, params, sc.particles) {
        Some(sim) => sim,
        None => {
            return Err(TooLarge);
        },
    };
    proof {
        lemma_chain_counted(*sc);
    }
    let ghost mut sims = seq![sim];
    let mut results: Vec<StageResult<P::Real>> = Vec::new();
    let mut i: usize = 0;
    while i < sc.stages.len()
        invariant
            i <= sc.stages@.len(),
            keeps_length(*p),
            sc.wf(),
            sc.iterations_to(sc.stages@.len() as int) <= u64::MAX,
            sim.wf(),
            sim.iteration == sc.iterations_to(i as int),
            sim.params.fail_limit == sc.fail_limit,
            results@.len() == i,
            within_stages(*sc, results@),
            chained_by(*p, *sc, chain as int, results@, sims),
            sims.last() == sim,
        decreases sc.stages@.len() - i,
    {
        proof {
            lemma_iterations_to(*sc, i + 1, sc.stages@.len() as int);
        }
        let ghost before = results@;
        match run_stage(p, sc, i, &mut sim) {
            Err(e) => {
                return Err(e);
            },
            Ok(result) => {
                results.push(result);
                proof {
                    let longer = sims.push(sim);
                    assert forall|k: int| #![trigger results@[k]] 0 <= k < results@.len() implies staged(
                        *p,
                        sc.stages@[k],
                        sc.brush_of(k),
                        k,
                        longer[k],
                        longer[k + 1],
                        results@[k],
                    ) by {
                        if k < i {
                            assert(results@[k] == before[k]);
                        }
                    }
                    sims = longer;
                }
            },
        }
        i = i + 1;
    }
    let c = Chain { stages: results, energy: sim.energy, particles: sim.pos.len() };
    assert(chained_by(*p, *sc, chain as int, c.stages@, sims));
    Ok(c)
}

/// What all of `chains` proposed on stage `i`.
pub open spec fn proposed_by_all<R>(chains: Seq<Chain<R>>, i: int) -> int
    decreases chains.len(),
{
    if chains.len() == 0 {
        0
    } else {
        proposed_by_all(chains.drop_last(), i) + chains.last().stages@[i].proposed
    }
}

/// What all of `chains` accepted on stage `i`.
pub open spec fn accepted_by_all<R>(chains: Seq<Chain<R>>, i: int) -> int
    decreases chains.len(),
{
    if chains.len() == 0 {
        0
    } else {
        accepted_by_all(chains.drop_last(), i) + chains.last().stages@[i].accepted
    }
}

/// The proposals of chains on a stage are no more than their iterations.
proof fn lemma_by_all<R>(sc: Scenario<R>, chains: Seq<Chain<R>>, i: int)
    requires
        0 <= i < sc.stages@.len(),
        forall|c: int|
            0 <= c < chains.len() ==> within_stages(sc, (#[trigger] chains[c]).stages@) && chains[c].stages@.len()
                == sc.stages@.len(),
    ensures
        0 <= accepted_by_all(chains, i) <= proposed_by_all(chains, i) <= chains.len() * sc.stages@[i].iterations,
    decreases chains.len(),
{
    let k = sc.stages@[i].iterations as int;
    if chains.len() > 0 {
        let n = chains.len() as int;
        let less = chains.drop_last();
        assert forall|c: int| 0 <= c < less.len() implies within_stages(sc, (#[trigger] less[c]).stages@) && less[c].stages@.len()
            == sc.stages@.len() by {
            assert(less[c] == chains[c]);
        }
        lemma_by_all(sc, less, i);
        assert(within_stages(sc, chains[n - 1].stages@));
        assert(chains.last().stages@[i].proposed <= k);
        assert(n * k == (n - 1) * k + k) by (nonlinear_arith);
    }
}

/// `r` is what is measured on stage `i` over all `chains`: counts added up,
/// energies averaged.
pub open spec fn pooled<P: Physics>(p: P, chains: Seq<Chain<P::Real>>, i: int, r: StageResult<P::Real>) -> bool {
    let first = chains[0].stages@[i];
    &&& r.stage == i
    &&& r.temperature == first.temperature
    &&& r.iterations == first.iterations
    &&& r.proposed == proposed_by_all(chains, i)
    &&& r.accepted == accepted_by_all(chains, i)
    &&& rated(p, r.accepted, r.proposed, r.acceptance)
    &&& averaged(p, Seq::new(chains.len(), |c: int| chains[c].stages@[i].energy), r.energy)
    &&& averaged(p, Seq::new(chains.len(), |c: int| chains[c].stages@[i].energy_mean_tail), r.energy_mean_tail)
    &&& r.particles == first.particles
}

/// Pools what is measured on a stage over all chains.
fn pool<P: Physics>(p: &P, sc: &Scenario<P::Real>, chains: &Vec<Chain<P::Real>>, i: usize) -> (r: StageResult<P::Real>)
    requires
        sc.wf(),
        i < sc.stages@.len(),
        0 < chains@.len() <= sc.chain_count(),
        forall|c: int|
            0 <= c < chains@.len() ==> within_stages(*sc, (#[trigger] chains@[c]).stages@) && chains@[c].stages@.len()
                == sc.stages@.len(),
    ensures
        pooled(*p, chains@, i as int, r),
        r.accepted <= r.proposed <= chains@.len() * sc.stages@[i as int].iterations,
{
    proof {
        lemma_by_all(*sc, chains@, i as int);
    }
    let mut proposed: u64 = 0;
    let mut accepted: u64 = 0;
    let mut energies: Vec<P::Real> = Vec::with_capacity(chains.len());
    let mut tails: Vec<P::Real> = Vec::with_capacity(chains.len());
    let mut c: usize = 0;
    assert(chains@.take(0) =~= Seq::empty());
    while c < chains.len()
        invariant
            c <= chains@.len() <= sc.chain_count(),
            sc.wf(),
            i < sc.stages@.len(),
            forall|c: int|
                0 <= c < chains@.len() ==> within_stages(*sc, (#[trigger] chains@[c]).stages@) && chains@[c].stages@.len()
                    == sc.stages@.len(),
            proposed == proposed_by_all(chains@.take(c as int), i as int),
            accepted == accepted_by_all(chains@.take(c as int), i as int),
            energies@ =~= Seq::new(c as nat, |c: int| chains@[c].stages@[i as int].energy),
            tails@ =~= Seq::new(c as nat, |c: int| chains@[c].stages@[i as int].energy_mean_tail),
        decreases chains@.len() - c,
    {
        proof {
            let more = chains@.take(c + 1);
            assert(more.drop_last() =~= chains@.take(c as int));
            assert forall|k: int| 0 <= k < more.len() implies within_stages(*sc, (#[trigger] more[k]).stages@)
                && more[k].stages@.len() == sc.stages@.len() by {
                assert(more[k] == chains@[k]);
            }
            lemma_by_all(*sc, more, i as int);
            let n = sc.iterations_to(sc.stages@.len() as int);
            let k = sc.stages@[i as int].iterations as int;
            lemma_iterations_to(*sc, i + 1, sc.stages@.len() as int);
            lemma_iterations_to(*sc, 0, i as int);
            let count = sc.chain_count();
            assert((c + 1) * k <= count * n) by (nonlinear_arith)
                requires
                    0 <= c + 1 <= count,
                    0 <= k <= n,
            ;
        }
        let r = &chains[c].stages[i];
        proposed = proposed + r.proposed;
        accepted = accepted + r.accepted;
        energies.push(r.energy);
        tails.push(r.energy_mean_tail);
        c = c + 1;
    }
    assert(chains@.take(c as int) =~= chains@);
    let first = &chains[0].stages[i];
    StageResult {
        stage: i,
        temperature: first.temperature,
        iterations: first.iterations,
        proposed,
        accepted,
        acceptance: rate(p, accepted, proposed),
        energy: mean(p, &energies),
        energy_mean_tail: mean(p, &tails),
        particles: first.particles,
    }
}

/// `r` is what is measured on a run of the scenario: its stages pooled over all
/// chains, its end that of the last chain.
pub open spec fn measured<P: Physics>(p: P, sc: Scenario<P::Real>, r: RunResult<P::Real>) -> bool {
    exists|chains: Seq<Chain<P::Real>>| #[trigger] measured_by(p, sc, r, chains)
}

pub open spec fn measured_by<P: Physics>(p: P, sc: Scenario<P::Real>, r: RunResult<P::Real>, chains: Seq<Chain<P::Real>>) -> bool {
    &&& chains.len() == sc.chain_count()
    &&& forall|c: int| 0 <= c < chains.len() ==> chained(p, sc, c, #[trigger] chains[c])
    &&& r.stages@.len() == sc.stages@.len()
    &&& forall|i: int| 0 <= i < r.stages@.len() ==> pooled(p, chains, i, #[trigger] r.stages@[i])
    &&& r.final_energy == chains.last().energy
    &&& r.final_particles == chains.last().particles
}

/// All chains together propose no more on a stage than they have iterations, and
/// accept no more than they propose.
pub open spec fn within_chains<R>(sc: Scenario<R>, results: Seq<StageResult<R>>) -> bool {
    forall|i: int|
        0 <= i < results.len() ==> (#[trigger] results[i]).accepted <= results[i].proposed <= sc.chain_count()
            * sc.stages@[i].iterations
}

/// Runs a scenario, each chain from a seed of its own.
pub fn run_scenario<P: Physics>(p: &P, sc: &Scenario<P::Real>) -> (r: Result<RunResult<P::Real>, TooLarge>)
    requires
        keeps_length(*p),
        sc.wf(),
    ensures
        r matches Ok(result) ==> measured(*p, *sc, result) && within_chains(*sc, result.stages@),
        r is Err ==> cutoff_refused(*p, *sc) || stroke_refused(*p, *sc),
{
    let count: usize = if sc.chains > 1 { sc.chains } else { 1 };
    let mut chains: Vec<Chain<P::Real>> = Vec::new();
    let first = match run_chain(p, sc, 0) {
        Ok(c) => c,
        Err(e) => {
            return Err(e);
        },
    };
    let mut final_energy = first.energy;
    let mut final_particles = first.particles;
    chains.push(first);
    let mut chain: usize = 1;
    while chain < count
        invariant
            1 <= chain <= count == sc.chain_count(),
            keeps_length(*p),
            sc.wf(),
            chains@.len() == chain,
            forall|c: int|
                0 <= c < chain ==> chained(*p, *sc, c, #[trigger] chains@[c]) && within_stages(*sc, chains@[c].stages@),
            final_energy == chains@.last().energy,
            final_particles == chains@.last().particles,
        decreases count - chain,
    {
        match run_chain(p, sc, chain) {
            Ok(c) => {
                final_energy = c.energy;
                final_particles = c.particles;
                chains.push(c);
            },
            Err(e) => {
                return Err(e);
            },
        }
        chain = chain + 1;
    }
    let mut stages: Vec<StageResult<P::Real>> = Vec::with_capacity(sc.stages.len());
    let mut i: usize = 0;
    while i < sc.stages.len()
        invariant
            i <= sc.stages@.len(),
            sc.wf(),
            0 < chains@.len() == sc.chain_count(),
            forall|c: int|
                0 <= c < chains@.len() ==> chained(*p, *sc, c, #[trigger] chains@[c]) && within_stages(*sc, chains@[c].stages@),
            stages@.len() == i,
            forall|k: int| 0 <= k < i ==> pooled(*p, chains@, k, #[trigger] stages@[k]),
            within_chains(*sc, stages@),
        decreases sc.stages@.len() - i,
    {
        stages.push(pool(p, sc, &chains, i));
        i = i + 1;
    }
    let r = RunResult { stages, final_energy, final_particles };
    assert(measured_by(*p, *sc, r, chains@));
    Ok(r)
}

/// A stroke leaves the particles where they are.
proof fn lemma_painting_keeps_particles<P: Physics>(
    p: P,
    brush: Brush<P::Real>,
    a: Sim<P::Real>,
    points: Vec<[P::Real; 2]>,
    b: Sim<P::Real>,
)
    requires
        painting(p, brush)(a, points, b),
    ensures
        b.pos == a.pos,
{
    let report = choose|report: PaintReport<P::Real>| #[trigger] painted_with(p, brush, a, points@, b, report);
}

/// Strokes leave the particles where they are.
proof fn lemma_strokes_keep_particles<P: Physics>(
    p: P,
    brush: Brush<P::Real>,
    a: Sim<P::Real>,
    strokes: Seq<Vec<[P::Real; 2]>>,
    b: Sim<P::Real>,
)
    requires
        folded(painting(p, brush), a, strokes, b),
    ensures
        b.pos == a.pos,
{
    let trace = choose|trace: Seq<Sim<P::Real>>| #[trigger]
        partials(painting(p, brush), a, strokes, trace) && trace.last() == b;
    lemma_trace_keeps_particles(p, brush, a, strokes, trace, strokes.len());
}

proof fn lemma_trace_keeps_particles<P: Physics>(
    p: P,
    brush: Brush<P::Real>,
    a: Sim<P::Real>,
    strokes: Seq<Vec<[P::Real; 2]>>,
    trace: Seq<Sim<P::Real>>,
    n: nat,
)
    requires
        partials(painting(p, brush), a, strokes, trace),
        n <= strokes.len(),
    ensures
        trace[n as int].pos == a.pos,
    decreases n,
{
    if n > 0 {
        lemma_trace_keeps_particles(p, brush, a, strokes, trace, (n - 1) as nat);
        lemma_painting_keeps_particles(p, brush, trace[n - 1], strokes[n - 1], trace[n as int]);
    }
}

/// Annealing keeps as many particles.
proof fn lemma_sampled_keeps_particles<P: Physics>(
    p: P,
    gas: Gas<P::Real>,
    n: nat,
    every: int,
    after: Gas<P::Real>,
    history: Seq<P::Real>,
)
    requires
        sampled(p, gas, n, every, after, history),
    ensures
        after.layout.pos.len() == gas.layout.pos.len(),
    decreases n,
{
    if n > 0 {
        let (mid, took) = choose|mid: Gas<P::Real>, took: bool| #[trigger]
            stepped(p, mid, after, took) && if (n - 1) % every == 0 {
                &&& history.len() > 0
                &&& history.last() == after.energy
                &&& sampled(p, gas, (n - 1) as nat, every, mid, history.drop_last())
            } else {
                sampled(p, gas, (n - 1) as nat, every, mid, history)
            };
        let less = if (n - 1) % every == 0 {
            history.drop_last()
        } else {
            history
        };
        lemma_sampled_keeps_particles(p, gas, (n - 1) as nat, every, mid, less);
    }
}

proof fn lemma_chain_particles<P: Physics>(
    p: P,
    sc: Scenario<P::Real>,
    chain: int,
    results: Seq<StageResult<P::Real>>,
    sims: Seq<Sim<P::Real>>,
    n: nat,
)
    requires
        chained_by(p, sc, chain, results, sims),
        n <= results.len(),
    ensures
        sims[n as int].pos@.len() == sims[0].pos@.len(),
        n > 0 ==> results[n - 1].particles == sims[0].pos@.len(),
    decreases n,
{
    if n > 0 {
        lemma_chain_particles(p, sc, chain, results, sims, (n - 1) as nat);
        let i = n - 1;
        let (s0, s1, r) = (sims[i], sims[i + 1], results[i]);
        assert(staged(p, sc.stages@[i], sc.brush_of(i), i, s0, s1, r));
        let (painted, history) = choose|painted: Sim<P::Real>, history: Seq<P::Real>| #[trigger]
            staged_by(p, sc.stages@[i], sc.brush_of(i), i, s0, s1, r, painted, history);
        let set = Sim { params: Params { temperature: sc.stages@[i].temperature, ..s0.params }, ..s0 };
        lemma_strokes_keep_particles(p, sc.brush_of(i), set, sc.stages@[i].strokes@, painted);
        lemma_sampled_keeps_particles(
            p,
            painted@,
            sc.stages@[i].iterations as nat,
            sc.stages@[i].energy_sample_every as int,
            s1@,
            history,
        );
    }
}

/// Every chain, on every stage, has the particles that the scenario asks for, or
/// as many as there are cells: any chain's count speaks for all.
pub proof fn law_chains_have_the_same_particles<P: Physics>(p: P, sc: Scenario<P::Real>, chain: int, c: Chain<P::Real>, i: int)
    requires
        chained(p, sc, chain, c),
        0 <= i < c.stages@.len(),
    ensures
        c.stages@[i].particles == (if sc.particles < sc.h * sc.w {
            sc.particles as int
        } else {
            sc.h * sc.w
        }),
        c.particles == c.stages@[i].particles,
{
    let sims = choose|sims: Seq<Sim<P::Real>>| #[trigger]
        chained_by(p, sc, chain, c.stages@, sims) && c.energy == sims.last().energy && c.particles == sims.last().pos@.len()
            && c.stages@.len() == sc.stages@.len();
    lemma_chain_particles(p, sc, chain, c.stages@, sims, (i + 1) as nat);
    lemma_chain_particles(p, sc, chain, c.stages@, sims, c.stages@.len());
}

/// Something in which two results of a scenario differ.
#[derive(Debug, Clone, Copy, PartialEq, Eq, Structural)]
pub enum Mismatch {
    StageCount,
    /// The rate of acceptance of a stage.
    Acceptance(usize),
    /// The mean energy of a stage.
    Energy(usize),
    /// The particles of a stage.
    Particles(usize),
    FinalParticles,
}

/// In what stage `i` differs, with `ours` and `theirs` particles.
pub open spec fn stage_mismatches(i: usize, rates_agree: bool, energy_strays: bool, ours: usize, theirs: usize) -> Seq<Mismatch> {
    (if rates_agree {
        Seq::empty()
    } else {
        seq![Mismatch::Acceptance(i)]
    }) + (if energy_strays {
        seq![Mismatch::Energy(i)]
    } else {
        Seq::empty()
    }) + (if ours == theirs {
        Seq::empty()
    } else {
        seq![Mismatch::Particles(i)]
    })
}

pub open spec fn and_then_these(less: Seq<Mismatch>, more: Seq<Mismatch>) -> Seq<Mismatch> {
    less + more
}

/// `found` lists in what the first `n` stages differ.
pub open spec fn stages_differ<P: Physics>(
    p: P,
    accept_tol: P::Real,
    energy_tol: P::Real,
    ours: Seq<StageResult<P::Real>>,
    theirs: Seq<StageResult<P::Real>>,
    n: nat,
    found: Seq<Mismatch>,
) -> bool
    decreases n,
{
    if n == 0 {
        found.len() == 0
    } else {
        let (a, b) = (ours[n - 1], theirs[n - 1]);
        exists|close: bool, off: bool, less: Seq<Mismatch>|
            agrees_is(p, a.acceptance, b.acceptance, accept_tol, close) && strays_is(
                p,
                a.energy_mean_tail,
                b.energy_mean_tail,
                energy_tol,
                off,
            ) && stages_differ(p, accept_tol, energy_tol, ours, theirs, (n - 1) as nat, less) && found == #[trigger] and_then_these(
                less,
                stage_mismatches((n - 1) as usize, close, off, a.particles, b.particles),
            )
    }
}

/// Lists in what two results of a scenario differ, stage by stage. Results with
/// different numbers of stages differ in that alone.
pub fn compare<P: Physics>(
    p: &P,
    accept_tol: P::Real,
    energy_tol: P::Real,
    ours: &RunResult<P::Real>,
    theirs: &RunResult<P::Real>,
) -> (found: Vec<Mismatch>)
    ensures
        if ours.stages@.len() != theirs.stages@.len() {
            found@ == seq![Mismatch::StageCount]
        } else {
            exists|stages: Seq<Mismatch>| #[trigger]
                stages_differ(*p, accept_tol, energy_tol, ours.stages@, theirs.stages@, ours.stages@.len(), stages) && found@
                    == (if ours.final_particles == theirs.final_particles {
                    stages
                } else {
                    stages.push(Mismatch::FinalParticles)
                })
        },
{
    let mut found: Vec<Mismatch> = Vec::new();
    if ours.stages.len() != theirs.stages.len() {
        found.push(Mismatch::StageCount);
        assert(found@ =~= seq![Mismatch::StageCount]);
        return found;
    }
    let mut i: usize = 0;
    while i < ours.stages.len()
        invariant
            i <= ours.stages@.len() == theirs.stages@.len(),
            stages_differ(*p, accept_tol, energy_tol, ours.stages@, theirs.stages@, i as nat, found@),
        decreases ours.stages@.len() - i,
    {
        let ghost less = found@;
        let (a, b) = (&ours.stages[i], &theirs.stages[i]);
        let close = agrees(p, a.acceptance, b.acceptance, accept_tol);
        if !close {
            found.push(Mismatch::Acceptance(i));
        }
        let off = strays(p, a.energy_mean_tail, b.energy_mean_tail, energy_tol);
        if off {
            found.push(Mismatch::Energy(i));
        }
        if a.particles != b.particles {
            found.push(Mismatch::Particles(i));
        }
        proof {
            let n = (i + 1) as nat;
            assert((n - 1) as usize == i);
            assert(found@ =~= and_then_these(less, stage_mismatches((n - 1) as usize, close, off, a.particles, b.particles)));
            assert(agrees_is(*p, a.acceptance, b.acceptance, accept_tol, close));
            assert(strays_is(*p, a.energy_mean_tail, b.energy_mean_tail, energy_tol, off));
            assert(stages_differ(*p, accept_tol, energy_tol, ours.stages@, theirs.stages@, (n - 1) as nat, less));
            assert(stages_differ(*p, accept_tol, energy_tol, ours.stages@, theirs.stages@, n, found@));
        }
        i = i + 1;
    }
    if ours.final_particles != theirs.final_particles {
        found.push(Mismatch::FinalParticles);
    }
    found
}

/// Two results of a stage match: the acceptance rates and the energies are
/// within their tolerances, and the particles are as many.
pub open spec fn stages_match<R>(
    val: spec_fn(R) -> real,
    tiny: real,
    accept_tol: R,
    energy_tol: R,
    ours: StageResult<R>,
    theirs: StageResult<R>,
) -> bool {
    let (rate, other) = (val(ours.acceptance), val(theirs.acceptance));
    let (energy, base) = (val(ours.energy_mean_tail), val(theirs.energy_mean_tail));
    let scale = if magnitude(base) >= tiny {
        magnitude(base)
    } else {
        tiny
    };
    &&& magnitude(rate - other) <= val(accept_tol) || other > 0 as real && magnitude(rate - other) <= val(accept_tol) * other
    &&& magnitude(energy - base) <= val(energy_tol) * scale
    &&& ours.particles == theirs.particles
}

/// No stage is found to differ if and only if every stage matches.
pub proof fn law_no_stage_differs_where_all_match<P: Physics>(
    p: P,
    val: spec_fn(P::Real) -> real,
    tiny: real,
    accept_tol: P::Real,
    energy_tol: P::Real,
    ours: Seq<StageResult<P::Real>>,
    theirs: Seq<StageResult<P::Real>>,
    n: nat,
    found: Seq<Mismatch>,
)
    requires
        measures(p, val, tiny),
        stages_differ(p, accept_tol, energy_tol, ours, theirs, n, found),
    ensures
        found.len() == 0 <==> forall|i: int|
            0 <= i < n ==> #[trigger] stages_match(val, tiny, accept_tol, energy_tol, ours[i], theirs[i]),
    decreases n,
{
    if n > 0 {
        let (a, b) = (ours[n - 1], theirs[n - 1]);
        let (close, off, less) = choose|close: bool, off: bool, less: Seq<Mismatch>|
            agrees_is(p, a.acceptance, b.acceptance, accept_tol, close) && strays_is(
                p,
                a.energy_mean_tail,
                b.energy_mean_tail,
                energy_tol,
                off,
            ) && stages_differ(p, accept_tol, energy_tol, ours, theirs, (n - 1) as nat, less) && found == #[trigger] and_then_these(
                less,
                stage_mismatches((n - 1) as usize, close, off, a.particles, b.particles),
            );
        law_no_stage_differs_where_all_match(p, val, tiny, accept_tol, energy_tol, ours, theirs, (n - 1) as nat, less);
        law_agreement_in_numbers(p, val, tiny, a.acceptance, b.acceptance, accept_tol, close);
        law_straying_in_numbers(p, val, tiny, a.energy_mean_tail, b.energy_mean_tail, energy_tol, off);
        let here = stages_match(val, tiny, accept_tol, energy_tol, ours[n - 1], theirs[n - 1]);
        assert(here <==> stage_mismatches((n - 1) as usize, close, off, a.particles, b.particles).len() == 0);
        let before = forall|i: int|
            0 <= i < n - 1 ==> #[trigger] stages_match(val, tiny, accept_tol, energy_tol, ours[i], theirs[i]);
        let all = forall|i: int| 0 <= i < n ==> #[trigger] stages_match(val, tiny, accept_tol, energy_tol, ours[i], theirs[i]);
        assert(all <==> before && here);
    }
}

} // verus!

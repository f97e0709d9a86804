//! What is measured on a scenario, in real numbers.

use crate::anneal::{ran, stepped};
use crate::exact::lemma_summed_exact;
use crate::fold::{folded, partials};
use crate::formulas::{agrees_is, law_agreement_in_numbers, law_straying_in_numbers, magnitude, measures, strays_is};
use crate::numbers::{computes, larger, whole, Numbers};
use crate::paint::paints;
use crate::physics::{summed, Brush, PaintReport, Params, Physics};
use crate::scenario::{
    accepted_by_all, and_then_these, averaged, chained, chained_by, compare, law_no_stage_differs_where_all_match,
    measured_by, painted_with, painting, pooled, proposed_by_all, sampled, stage_mismatches, staged, staged_by,
    stages_differ, stages_match, Chain, Mismatch, RunResult, Scenario, Stage, StageResult,
};
use crate::sim::{Gas, Sim};
use crate::stroke::TooLarge;
use crate::tally::{lemma_tally_same, tally};
use vstd::prelude::*;

verus! {

/// A mean, times how many values it is of, is their sum.
pub proof fn law_mean_in_numbers<P: Physics>(p: P, n: Numbers<P::Real>, values: Seq<P::Real>, mean: P::Real)
    requires
        computes(p, n),
        0 < values.len() <= usize::MAX,
        averaged(p, values, mean),
    ensures
        (n.val)(mean) * whole(values.len() as int) == tally(values.len() as int, |i: int| (n.val)(values[i])),
{
    let m = values.len() as int;
    let total = choose|total: P::Real| #[trigger]
        summed(p, values, total) && call_ensures(P::share, (&p, total, values.len() as usize), mean);
    lemma_summed_exact(p, n.val, values, total);
    let (t, k) = ((n.val)(total), whole(m));
    assert(t / k * k == t) by (nonlinear_arith)
        requires
            k > 0 as real,
    ;
}

/// The state after `k + 1` iterations comes from the one before by one iteration.
pub open spec fn follows<P: Physics>(p: P, states: Seq<Gas<P::Real>>, k: int) -> bool {
    exists|took: bool| #[trigger] stepped(p, states[k], states[k + 1], took)
}

/// `states` holds a gas and what it is after each of `n` iterations.
pub open spec fn iterates<P: Physics>(p: P, n: int, states: Seq<Gas<P::Real>>) -> bool {
    &&& states.len() == n + 1
    &&& forall|k: int| 0 <= k < n ==> #[trigger] follows(p, states, k)
}

/// How many samples `n` iterations give that are taken after the first and every
/// `every` further on.
pub open spec fn is_sample_count(m: int, n: int, every: int) -> bool {
    (m - 1) * every < n <= m * every
}

/// One iteration more gives a sample more where their number is whole.
proof fn lemma_one_iteration_more(m: int, n: int, every: int)
    requires
        n > 0,
        every > 0,
        is_sample_count(m, n - 1, every),
    ensures
        (n - 1) % every == 0 ==> m * every == n - 1 && is_sample_count(m + 1, n, every),
        (n - 1) % every != 0 ==> is_sample_count(m, n, every),
{
    let d = (n - 1) / every;
    vstd::arithmetic::div_mod::lemma_fundamental_div_mod(n - 1, every);
    assert((m - 1) * every == m * every - every && (m + 1) * every == m * every + every && (d + 1) * every == d * every + every && d * every
        == every * d) by (nonlinear_arith);
    if (n - 1) % every == 0 {
        assert(m == d) by (nonlinear_arith)
            requires
                (m - 1) * every < d * every <= m * every,
                every > 0,
        ;
    } else {
        assert(d < m) by (nonlinear_arith)
            requires
                d * every < m * every,
                every > 0,
        ;
        assert((d + 1) * every <= m * every) by (nonlinear_arith)
            requires
                d + 1 <= m,
                every > 0,
        ;
    }
}

/// `energy` is sample `j`.
spec fn is_sample<R>(states: Seq<Gas<R>>, every: int, j: int, energy: R) -> bool {
    0 <= j * every < states.len() - 1 && energy == states[1 + j * every].energy
}

proof fn lemma_samples<P: Physics>(p: P, gas: Gas<P::Real>, n: nat, every: int, after: Gas<P::Real>, history: Seq<P::Real>) -> (states: Seq<
    Gas<P::Real>,
>)
    requires
        sampled(p, gas, n, every, after, history),
        n > 0 ==> every > 0,
    ensures
        iterates(p, n as int, states),
        states[0] == gas,
        states.last() == after,
        every > 0 ==> is_sample_count(history.len() as int, n as int, every),
        n == 0 ==> history.len() == 0,
        forall|j: int| 0 <= j < history.len() ==> #[trigger] is_sample(states, every, j, history[j]),
    decreases n,
{
    if n == 0 {
        assert((0 - 1) * every < 0 || every <= 0) by (nonlinear_arith);
        assert(0 * every == 0) by (nonlinear_arith);
        seq![gas]
    } else {
        let (mid, took) = choose|mid: Gas<P::Real>, took: bool| #[trigger]
            stepped(p, mid, after, took) && if (n - 1) % every == 0 {
                &&& history.len() > 0
                &&& history.last() == after.energy
                &&& sampled(p, gas, (n - 1) as nat, every, mid, history.drop_last())
            } else {
                sampled(p, gas, (n - 1) as nat, every, mid, history)
            };
        let takes = (n - 1) % every == 0;
        let less = if takes {
            history.drop_last()
        } else {
            history
        };
        let before = lemma_samples(p, gas, (n - 1) as nat, every, mid, less);
        let states = before.push(after);
        assert forall|k: int| 0 <= k < n implies #[trigger] follows(p, states, k) by {
            if k < n - 1 {
                assert(follows(p, before, k));
                let took = choose|took: bool| #[trigger] stepped(p, before[k], before[k + 1], took);
                assert(stepped(p, states[k], states[k + 1], took));
            } else {
                assert(stepped(p, states[k], states[k + 1], took));
            }
        }
        let m = less.len() as int;
        lemma_one_iteration_more(m, n as int, every);
        assert forall|j: int| 0 <= j < history.len() implies #[trigger] is_sample(states, every, j, history[j]) by {
            if j < less.len() {
                assert(is_sample(before, every, j, less[j]));
            } else {
                assert(j == m && j * every == n - 1);
            }
        }
        states
    }
}

/// A stage is measured over its second half: of the samples that were taken, after
/// its first iteration and every so many further on, the first half, rounded down,
/// does not count, and the mean is that of all the others.
pub proof fn law_second_half_of_a_stage_is_averaged<P: Physics>(
    p: P,
    n: Numbers<P::Real>,
    stage: Stage<P::Real>,
    brush: Brush<P::Real>,
    i: int,
    s0: Sim<P::Real>,
    s1: Sim<P::Real>,
    r: StageResult<P::Real>,
    m: int,
) -> (states: Seq<Gas<P::Real>>)
    requires
        computes(p, n),
        staged(p, stage, brush, i, s0, s1, r),
        stage.iterations <= usize::MAX,
        stage.iterations > 0,
        stage.energy_sample_every > 0,
        is_sample_count(m, stage.iterations as int, stage.energy_sample_every as int),
    ensures
        iterates(p, stage.iterations as int, states),
        states.last() == s1@,
        states[0].layout.params.temperature == stage.temperature,
        (n.val)(r.energy_mean_tail) * whole(m - m / 2) == tally(
            m - m / 2,
            |j: int| (n.val)(states[1 + (m / 2 + j) * stage.energy_sample_every].energy),
        ),
{
    let (painted, history) = choose|painted: Sim<P::Real>, history: Seq<P::Real>| #[trigger]
        staged_by(p, stage, brush, i, s0, s1, r, painted, history);
    let set = Sim { params: Params { temperature: stage.temperature, ..s0.params }, ..s0 };
    lemma_strokes_keep_params(p, brush, set, stage.strokes@, painted);
    let every = stage.energy_sample_every as int;
    let states = lemma_samples(p, painted@, stage.iterations as nat, every, s1@, history);
    let h = history.len() as int;
    assert(h == m) by (nonlinear_arith)
        requires
            (m - 1) * every < stage.iterations <= m * every,
            (h - 1) * every < stage.iterations <= h * every,
            every > 0,
    ;
    assert(m <= stage.iterations) by (nonlinear_arith)
        requires
            (m - 1) * every < stage.iterations,
            every > 0,
    ;
    assert(m > 0) by (nonlinear_arith)
        requires
            0 < stage.iterations <= m * every,
            every > 0,
    ;
    let tail = history.skip(h / 2);
    law_mean_in_numbers(p, n, tail, r.energy_mean_tail);
    let f = |j: int| (n.val)(tail[j]);
    let g = |j: int| (n.val)(states[1 + (m / 2 + j) * stage.energy_sample_every].energy);
    assert forall|j: int| #![trigger f(j)] 0 <= j < m - m / 2 implies f(j) == g(j) by {
        assert(is_sample(states, every, m / 2 + j, history[m / 2 + j]));
    }
    lemma_tally_same(m - m / 2, f, g);
    states
}

/// The first half of the samples does not count: two stages that took as many
/// samples, which read the same from the middle on, read the same mean.
pub proof fn law_first_half_of_a_stage_does_not_count<P: Physics>(
    p: P,
    n: Numbers<P::Real>,
    stages: (Stage<P::Real>, Stage<P::Real>),
    brushes: (Brush<P::Real>, Brush<P::Real>),
    i: int,
    befores: (Sim<P::Real>, Sim<P::Real>),
    afters: (Sim<P::Real>, Sim<P::Real>),
    results: (StageResult<P::Real>, StageResult<P::Real>),
    painted: (Sim<P::Real>, Sim<P::Real>),
    one: Seq<P::Real>,
    other: Seq<P::Real>,
)
    requires
        computes(p, n),
        staged_by(p, stages.0, brushes.0, i, befores.0, afters.0, results.0, painted.0, one),
        staged_by(p, stages.1, brushes.1, i, befores.1, afters.1, results.1, painted.1, other),
        0 < one.len() == other.len() <= usize::MAX,
        forall|j: int| one.len() <= 2 * j + 1 && j < one.len() ==> (n.val)(#[trigger] one[j]) == (n.val)(other[j]),
    ensures
        (n.val)(results.0.energy_mean_tail) == (n.val)(results.1.energy_mean_tail),
{
    let h = one.len() as int;
    let (a, b) = (one.skip(h / 2), other.skip(h / 2));
    let m = a.len() as int;
    law_mean_in_numbers(p, n, a, results.0.energy_mean_tail);
    law_mean_in_numbers(p, n, b, results.1.energy_mean_tail);
    let (f, g) = (|j: int| (n.val)(a[j]), |j: int| (n.val)(b[j]));
    assert forall|j: int| #![trigger f(j)] 0 <= j < m implies f(j) == g(j) by {
        assert(a[j] == one[h / 2 + j] && b[j] == other[h / 2 + j]);
    }
    lemma_tally_same(m, f, g);
    let (u, v, k) = ((n.val)(results.0.energy_mean_tail), (n.val)(results.1.energy_mean_tail), whole(m));
    assert(u == v) by (nonlinear_arith)
        requires
            u * k == v * k,
            k > 0 as real,
    ;
}

/// A stage without iterations reads the energy that it ends with.
pub proof fn law_stage_without_iterations_reads_its_energy<P: Physics>(
    p: P,
    stage: Stage<P::Real>,
    brush: Brush<P::Real>,
    i: int,
    s0: Sim<P::Real>,
    s1: Sim<P::Real>,
    r: StageResult<P::Real>,
)
    requires
        staged(p, stage, brush, i, s0, s1, r),
        stage.iterations == 0,
    ensures
        r.energy_mean_tail == s1.energy,
        s1.iteration == s0.iteration,
{
    let (painted, history) = choose|painted: Sim<P::Real>, history: Seq<P::Real>| #[trigger]
        staged_by(p, stage, brush, i, s0, s1, r, painted, history);
    let set = Sim { params: Params { temperature: stage.temperature, ..s0.params }, ..s0 };
    lemma_strokes_keep_params(p, brush, set, stage.strokes@, painted);
}

/// A stage counts its own iterations, proposals and acceptances.
pub proof fn law_a_stage_counts_its_own<P: Physics>(
    p: P,
    n: Numbers<P::Real>,
    stage: Stage<P::Real>,
    brush: Brush<P::Real>,
    i: int,
    s0: Sim<P::Real>,
    s1: Sim<P::Real>,
    r: StageResult<P::Real>,
)
    requires
        computes(p, n),
        staged(p, stage, brush, i, s0, s1, r),
        s0.wf(),
        s1.wf(),
        s0.iteration + stage.iterations <= u64::MAX,
        stage.iterations > 0 ==> stage.energy_sample_every > 0,
    ensures
        s1.iteration - s0.iteration == stage.iterations == r.iterations,
        s1.proposed - s0.proposed == r.proposed,
        s1.accepted - s0.accepted == r.accepted,
        s1.params == (Params { temperature: stage.temperature, ..s0.params }),
        r.temperature == stage.temperature,
        r.energy == s1.energy,
        r.particles == s1.pos@.len() == s0.pos@.len(),
        (n.val)(r.acceptance) * whole(r.proposed as int) == whole(r.accepted as int),
        r.proposed == 0 ==> (n.val)(r.acceptance) == 0 as real,
{
    let (painted, history) = choose|painted: Sim<P::Real>, history: Seq<P::Real>| #[trigger]
        staged_by(p, stage, brush, i, s0, s1, r, painted, history);
    let set = Sim { params: Params { temperature: stage.temperature, ..s0.params }, ..s0 };
    lemma_strokes_keep_params(p, brush, set, stage.strokes@, painted);
    let states = lemma_samples(p, painted@, stage.iterations as nat, stage.energy_sample_every as int, s1@, history);
    assert(s0.proposed <= s0.iteration);
    lemma_iterates_count(p, stage.iterations as int, states, stage.iterations as int);
    if r.proposed > 0 {
        let (a, b) = (whole(r.accepted as int), whole(r.proposed as int));
        assert(a / b * b == a) by (nonlinear_arith)
            requires
                b > 0 as real,
        ;
    }
}

proof fn lemma_iterates_count<P: Physics>(p: P, n: int, states: Seq<Gas<P::Real>>, k: int)
    requires
        iterates(p, n, states),
        0 <= k <= n,
        states[0].iteration + n <= u64::MAX,
        states[0].accepted <= states[0].proposed <= states[0].iteration,
    ensures
        states[k].iteration == states[0].iteration + k,
        0 <= states[k].accepted - states[0].accepted <= states[k].proposed - states[0].proposed <= k,
        states[k].layout.params == states[0].layout.params,
        states[k].layout.pos.len() == states[0].layout.pos.len(),
    decreases k,
{
    if k > 0 {
        lemma_iterates_count(p, n, states, k - 1);
        assert(follows(p, states, k - 1));
        let took = choose|took: bool| #[trigger] stepped(p, states[k - 1], states[k], took);
    }
}

proof fn lemma_strokes_keep_params<P: Physics>(
    p: P,
    brush: Brush<P::Real>,
    a: Sim<P::Real>,
    strokes: Seq<Vec<[P::Real; 2]>>,
    b: Sim<P::Real>,
)
    requires
        folded(painting(p, brush), a, strokes, b),
    ensures
        b.params == a.params,
        b.pos == a.pos,
        b.iteration == a.iteration,
        b.proposed == a.proposed,
        b.accepted == a.accepted,
{
    let trace = choose|trace: Seq<Sim<P::Real>>| #[trigger]
        partials(painting(p, brush), a, strokes, trace) && trace.last() == b;
    lemma_trace_keeps_params(p, brush, a, strokes, trace, strokes.len());
}

proof fn lemma_trace_keeps_params<P: Physics>(
    p: P,
    brush: Brush<P::Real>,
    a: Sim<P::Real>,
    strokes: Seq<Vec<[P::Real; 2]>>,
    trace: Seq<Sim<P::Real>>,
    n: nat,
)
    requires
        partials(painting(p, brush), a, strokes, trace),
        n <= strokes.len(),
    ensures
        trace[n as int].params == a.params,
        trace[n as int].pos == a.pos,
        trace[n as int].iteration == a.iteration,
        trace[n as int].proposed == a.proposed,
        trace[n as int].accepted == a.accepted,
    decreases n,
{
    if n > 0 {
        lemma_trace_keeps_params(p, brush, a, strokes, trace, (n - 1) as nat);
        let (s, t) = (trace[n - 1], trace[n as int]);
        let points = strokes[n - 1];
        assert(painting(p, brush)(s, points, t));
        let report = choose|report: PaintReport<P::Real>| #[trigger] painted_with(p, brush, s, points@, t, report);
    }
}

proof fn lemma_counts_by_all<R>(chains: Seq<Chain<R>>, i: int)
    ensures
        whole(proposed_by_all(chains, i)) == tally(chains.len() as int, |c: int| whole(chains[c].stages@[i].proposed as int)),
        whole(accepted_by_all(chains, i)) == tally(chains.len() as int, |c: int| whole(chains[c].stages@[i].accepted as int)),
    decreases chains.len(),
{
    if chains.len() > 0 {
        let less = chains.drop_last();
        let m = less.len() as int;
        lemma_counts_by_all(less, i);
        lemma_tally_same(
            m,
            |c: int| whole(less[c].stages@[i].proposed as int),
            |c: int| whole(chains[c].stages@[i].proposed as int),
        );
        lemma_tally_same(
            m,
            |c: int| whole(less[c].stages@[i].accepted as int),
            |c: int| whole(chains[c].stages@[i].accepted as int),
        );
    }
}

/// What is measured on a stage of a run speaks for all its chains: the counts are
/// added up, the energies averaged, and the rate is that of the counts.
pub proof fn law_chains_are_pooled<P: Physics>(
    p: P,
    n: Numbers<P::Real>,
    sc: Scenario<P::Real>,
    run: RunResult<P::Real>,
    chains: Seq<Chain<P::Real>>,
    i: int,
)
    requires
        computes(p, n),
        measured_by(p, sc, run, chains),
        0 <= i < run.stages@.len(),
    ensures
        chains.len() == (if sc.chains == 0 {
            1
        } else {
            sc.chains as int
        }),
        ({
            let (r, m) = (run.stages@[i], chains.len() as int);
            &&& whole(r.proposed as int) == tally(m, |c: int| whole(chains[c].stages@[i].proposed as int))
            &&& whole(r.accepted as int) == tally(m, |c: int| whole(chains[c].stages@[i].accepted as int))
            &&& (n.val)(r.energy) * whole(m) == tally(m, |c: int| (n.val)(chains[c].stages@[i].energy))
            &&& (n.val)(r.energy_mean_tail) * whole(m) == tally(m, |c: int| (n.val)(chains[c].stages@[i].energy_mean_tail))
            &&& r.proposed > 0 ==> (n.val)(r.acceptance) * whole(r.proposed as int) == whole(r.accepted as int)
            &&& r.proposed == 0 ==> (n.val)(r.acceptance) == 0 as real
            &&& r.stage == i
        }),
        run.final_energy == chains[chains.len() - 1].energy,
        run.final_particles == chains[chains.len() - 1].particles,
{
    let (r, m) = (run.stages@[i], chains.len() as int);
    assert(pooled(p, chains, i, r));
    lemma_counts_by_all(chains, i);
    let energies = Seq::new(chains.len(), |c: int| chains[c].stages@[i].energy);
    let tails = Seq::new(chains.len(), |c: int| chains[c].stages@[i].energy_mean_tail);
    law_mean_in_numbers(p, n, energies, r.energy);
    law_mean_in_numbers(p, n, tails, r.energy_mean_tail);
    lemma_tally_same(m, |c: int| (n.val)(energies[c]), |c: int| (n.val)(chains[c].stages@[i].energy));
    lemma_tally_same(m, |c: int| (n.val)(tails[c]), |c: int| (n.val)(chains[c].stages@[i].energy_mean_tail));
    if r.proposed > 0 {
        let (a, b) = (whole(r.accepted as int), whole(r.proposed as int));
        assert(a / b * b == a) by (nonlinear_arith)
            requires
                b > 0 as real,
        ;
    }
}

/// Chains differ in their seeds alone, which go up in even steps around all words.
pub proof fn law_chains_differ_in_their_seeds<R>(sc: Scenario<R>, chain: int)
    requires
        0 <= chain,
    ensures
        sc.chain_params(0).seed == sc.seed,
        (sc.chain_params(chain + 1).seed - sc.chain_params(chain).seed - 997) % 0x1_0000_0000_0000_0000 == 0,
        sc.chain_params(chain) == (Params { seed: sc.chain_params(chain).seed, ..sc.chain_params(0) }),
        ({
            let q = sc.chain_params(chain);
            &&& q.h == sc.h && q.w == sc.w && q.periodic == sc.periodic
            &&& q.strength == sc.strength && q.screening == sc.screening && q.cutoff == sc.cutoff && q.charge == sc.charge
            &&& q.attract_depth == sc.attract_depth && q.attract_range == sc.attract_range
            &&& q.batch == sc.batch && q.batch_min == sc.batch_min && q.batch_decrement == sc.batch_decrement
            &&& q.fail_limit == sc.fail_limit && q.step_size == sc.step_size
            &&& sc.stages@.len() > 0 ==> q.temperature == sc.stages@[0].temperature
            &&& sc.stages@.len() == 0 ==> q.temperature == sc.plain_temperature
        }),
{
    let (a, b) = (sc.seed + chain * 997, sc.seed + (chain + 1) * 997);
    assert(b == a + 997) by (nonlinear_arith)
        requires
            a == sc.seed + chain * 997,
            b == sc.seed + (chain + 1) * 997,
    ;
}

/// Two results are found to differ in nothing if and only if they have as many
/// stages, every stage matches, and they end with as many particles.
pub proof fn law_results_that_match_do_not_differ<P: Physics>(
    p: P,
    val: spec_fn(P::Real) -> real,
    tiny: real,
    accept_tol: P::Real,
    energy_tol: P::Real,
    ours: RunResult<P::Real>,
    theirs: RunResult<P::Real>,
    found: Vec<Mismatch>,
)
    requires
        measures(p, val, tiny),
        call_ensures(compare::<P>, (&p, accept_tol, energy_tol, &ours, &theirs), found),
    ensures
        found@.len() == 0 <==> {
            &&& ours.stages@.len() == theirs.stages@.len()
            &&& ours.final_particles == theirs.final_particles
            &&& forall|i: int|
                0 <= i < ours.stages@.len() ==> #[trigger] stages_match(
                    val,
                    tiny,
                    accept_tol,
                    energy_tol,
                    ours.stages@[i],
                    theirs.stages@[i],
                )
        },
{
    if ours.stages@.len() == theirs.stages@.len() {
        let stages = choose|stages: Seq<Mismatch>| #[trigger]
            stages_differ(p, accept_tol, energy_tol, ours.stages@, theirs.stages@, ours.stages@.len(), stages) && found@
                == (if ours.final_particles == theirs.final_particles {
                stages
            } else {
                stages.push(Mismatch::FinalParticles)
            });
        law_no_stage_differs_where_all_match(
            p,
            val,
            tiny,
            accept_tol,
            energy_tol,
            ours.stages@,
            theirs.stages@,
            ours.stages@.len(),
            stages,
        );
    }
}

/// A stage paints with its own brush, or the plain one if it brings none.
pub proof fn law_stages_paint_with_their_own_brush<R>(sc: Scenario<R>, i: int)
    requires
        0 <= i < sc.stages@.len(),
    ensures
        sc.stages@[i].brush is Some ==> Some(sc.brush_of(i)) == sc.stages@[i].brush,
        sc.stages@[i].brush is None ==> sc.brush_of(i) == sc.plain_brush,
{
}

/// A stage paints its strokes one after another, each as a stroke of its own, and
/// anneals what comes of that.
pub proof fn law_a_stage_paints_and_then_anneals<P: Physics>(
    p: P,
    stage: Stage<P::Real>,
    brush: Brush<P::Real>,
    i: int,
    s0: Sim<P::Real>,
    s1: Sim<P::Real>,
    r: StageResult<P::Real>,
) -> (sims: Seq<Sim<P::Real>>)
    requires
        staged(p, stage, brush, i, s0, s1, r),
        stage.iterations > 0 ==> stage.energy_sample_every > 0,
    ensures
        sims.len() == stage.strokes@.len() + 1,
        sims[0] == (Sim { params: Params { temperature: stage.temperature, ..s0.params }, ..s0 }),
        forall|k: int|
            0 <= k < stage.strokes@.len() ==> #[trigger] laid_next(p, brush, sims, k, stage.strokes@[k]@),
        ran(p, sims.last()@, stage.iterations as nat, s1@),
{
    let (painted, history) = choose|painted: Sim<P::Real>, history: Seq<P::Real>| #[trigger]
        staged_by(p, stage, brush, i, s0, s1, r, painted, history);
    let set = Sim { params: Params { temperature: stage.temperature, ..s0.params }, ..s0 };
    let sims = choose|trace: Seq<Sim<P::Real>>| #[trigger]
        partials(painting(p, brush), set, stage.strokes@, trace) && trace.last() == painted;
    assert forall|k: int| 0 <= k < stage.strokes@.len() implies #[trigger] laid_next(p, brush, sims, k, stage.strokes@[k]@) by {
        let points = stage.strokes@[k];
        assert(painting(p, brush)(sims[k], points, sims[k + 1]));
        let report = choose|report: PaintReport<P::Real>| #[trigger]
            painted_with(p, brush, sims[k], points@, sims[k + 1], report);
        assert(paints(p, sims[k], sims[k + 1], points@, brush, true, Ok::<PaintReport<P::Real>, TooLarge>(report)));
    }
    lemma_sampled_ran(p, painted@, stage.iterations as nat, stage.energy_sample_every as int, s1@, history);
    sims
}

/// The gas that comes after `sims[k]` is that gas with a stroke painted.
pub open spec fn laid_next<P: Physics>(p: P, brush: Brush<P::Real>, sims: Seq<Sim<P::Real>>, k: int, points: Seq<[P::Real; 2]>) -> bool {
    exists|report: PaintReport<P::Real>| #[trigger]
        paints(p, sims[k], sims[k + 1], points, brush, true, Ok::<PaintReport<P::Real>, TooLarge>(report))
}

proof fn lemma_sampled_ran<P: Physics>(p: P, gas: Gas<P::Real>, n: nat, every: int, after: Gas<P::Real>, history: Seq<P::Real>)
    requires
        sampled(p, gas, n, every, after, history),
    ensures
        ran(p, gas, n, after),
    decreases n,
{
    if n > 0 {
        let (mid, took) = choose|mid: Gas<P::Real>, took: bool| #[trigger]
            stepped(p, mid, after, took) && if (n - 1) % every == 0 {
                &&& history.len() > 0
                &&& history.last() == after.energy
                &&& sampled(p, gas, (n - 1) as nat, every, mid, history.drop_last())
            } else {
                sampled(p, gas, (n - 1) as nat, every, mid, history)
            };
        let less = if (n - 1) % every == 0 {
            history.drop_last()
        } else {
            history
        };
        lemma_sampled_ran(p, gas, (n - 1) as nat, every, mid, less);
    }
}

/// What is found to differ is told by its kind and by the number of the stage.
pub proof fn law_differences_are_told_by_stage<P: Physics>(
    p: P,
    val: spec_fn(P::Real) -> real,
    tiny: real,
    accept_tol: P::Real,
    energy_tol: P::Real,
    ours: Seq<StageResult<P::Real>>,
    theirs: Seq<StageResult<P::Real>>,
    n: nat,
    found: Seq<Mismatch>,
    i: usize,
)
    requires
        measures(p, val, tiny),
        n <= usize::MAX,
        stages_differ(p, accept_tol, energy_tol, ours, theirs, n, found),
    ensures
        found.contains(Mismatch::Particles(i)) <==> i < n && ours[i as int].particles != theirs[i as int].particles,
        found.contains(Mismatch::Energy(i)) <==> i < n && {
            let (energy, base) = (val(ours[i as int].energy_mean_tail), val(theirs[i as int].energy_mean_tail));
            magnitude(energy - base) > val(energy_tol) * larger(magnitude(base), tiny)
        },
        found.contains(Mismatch::Acceptance(i)) <==> i < n && {
            let (rate, other) = (val(ours[i as int].acceptance), val(theirs[i as int].acceptance));
            &&& magnitude(rate - other) > val(accept_tol)
            &&& other > 0 as real ==> magnitude(rate - other) > val(accept_tol) * other
        },
        !found.contains(Mismatch::StageCount) && !found.contains(Mismatch::FinalParticles),
    decreases n,
{
    if n > 0 {
        let (a, b) = (ours[n - 1], theirs[n - 1]);
        let (close, off, less) = choose|close: bool, off: bool, less: Seq<Mismatch>|
            agrees_is(p, a.acceptance, b.acceptance, accept_tol, close) && strays_is(
                p,
                a.energy_mean_tail,
                b.energy_mean_tail,
                energy_tol,
                off,
            ) && stages_differ(p, accept_tol, energy_tol, ours, theirs, (n - 1) as nat, less) && found == #[trigger] and_then_these(
                less,
                stage_mismatches((n - 1) as usize, close, off, a.particles, b.particles),
            );
        law_differences_are_told_by_stage(p, val, tiny, accept_tol, energy_tol, ours, theirs, (n - 1) as nat, less, i);
        law_agreement_in_numbers(p, val, tiny, a.acceptance, b.acceptance, accept_tol, close);
        law_straying_in_numbers(p, val, tiny, a.energy_mean_tail, b.energy_mean_tail, energy_tol, off);
        let j = (n - 1) as usize;
        let more = stage_mismatches(j, close, off, a.particles, b.particles);
        lemma_mismatches_of_a_stage(j, close, off, a.particles, b.particles);
        assert forall|m: Mismatch| #[trigger] found.contains(m) <==> less.contains(m) || more.contains(m) by {
            if found.contains(m) {
                let k = choose|k: int| 0 <= k < found.len() && found[k] == m;
                if k < less.len() {
                    assert(less[k] == m);
                } else {
                    assert(more[k - less.len()] == m);
                }
            }
            if less.contains(m) {
                let k = choose|k: int| 0 <= k < less.len() && less[k] == m;
                assert(found[k] == m);
            }
            if more.contains(m) {
                let k = choose|k: int| 0 <= k < more.len() && more[k] == m;
                assert(found[less.len() + k] == m);
            }
        }
    }
}

proof fn lemma_mismatches_of_a_stage(j: usize, close: bool, off: bool, ours: usize, theirs: usize)
    ensures
        forall|m: Mismatch| #[trigger]
            stage_mismatches(j, close, off, ours, theirs).contains(m) <==> {
                ||| m == Mismatch::Acceptance(j) && !close
                ||| m == Mismatch::Energy(j) && off
                ||| m == Mismatch::Particles(j) && ours != theirs
            },
{
    let all = stage_mismatches(j, close, off, ours, theirs);
    assert forall|m: Mismatch| #[trigger] all.contains(m) <==> {
        ||| m == Mismatch::Acceptance(j) && !close
        ||| m == Mismatch::Energy(j) && off
        ||| m == Mismatch::Particles(j) && ours != theirs
    } by {
        let rates: int = if close {
            0
        } else {
            1
        };
        let energies: int = if off {
            1
        } else {
            0
        };
        if !close {
            assert(all[0] == Mismatch::Acceptance(j));
        }
        if off {
            assert(all[rates] == Mismatch::Energy(j));
        }
        if ours != theirs {
            assert(all[rates + energies] == Mismatch::Particles(j));
        }
    }
}

/// A chain starts from a blank canvas with a seed of its own, and goes through the
/// stages one after another, each from where the one before has left the gas.
pub proof fn law_chains_start_from_seeds_of_their_own<P: Physics>(p: P, sc: Scenario<P::Real>, chain: int, c: Chain<P::Real>) -> (sims: Seq<
    Sim<P::Real>,
>)
    requires
        chained(p, sc, chain, c),
        0 <= chain,
    ensures
        sims.len() == sc.stages@.len() + 1 == c.stages@.len() + 1,
        sims[0].params.seed == (sc.seed + 997 * chain) % 0x1_0000_0000_0000_0000,
        sims[0].stream.seed == sims[0].params.seed && sims[0].stream.position == 0,
        sims[0].params.periodic == sc.periodic,
        sims[0].iteration == 0 && sims[0].strokes@.len() == 0,
        forall|i: int|
            #![trigger c.stages@[i]]
            0 <= i < sc.stages@.len() ==> staged(p, sc.stages@[i], sc.brush_of(i), i, sims[i], sims[i + 1], c.stages@[i]),
        c.energy == sims.last().energy && c.particles == sims.last().pos@.len(),
{
    let sims = choose|sims: Seq<Sim<P::Real>>| #[trigger]
        chained_by(p, sc, chain, c.stages@, sims) && c.energy == sims.last().energy && c.particles == sims.last().pos@.len()
            && c.stages@.len() == sc.stages@.len();
    assert(997 * chain == chain * 997) by (nonlinear_arith);
    sims
}

/// The chains of a run start from seeds of their own.
pub proof fn law_chains_of_a_run_are_numbered<P: Physics>(
    p: P,
    sc: Scenario<P::Real>,
    run: RunResult<P::Real>,
    chains: Seq<Chain<P::Real>>,
    k: int,
) -> (sims: Seq<Sim<P::Real>>)
    requires
        measured_by(p, sc, run, chains),
        0 <= k < chains.len(),
    ensures
        sims.len() == sc.stages@.len() + 1,
        sims[0].stream.seed == (sc.seed + 997 * k) % 0x1_0000_0000_0000_0000,
        forall|i: int|
            #![trigger chains[k].stages@[i]]
            0 <= i < sc.stages@.len() ==> staged(
                p,
                sc.stages@[i],
                sc.brush_of(i),
                i,
                sims[i],
                sims[i + 1],
                chains[k].stages@[i],
            ),
{
    assert(chained(p, sc, k, chains[k]));
    law_chains_start_from_seeds_of_their_own(p, sc, k, chains[k])
}

} // verus!

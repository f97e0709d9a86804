//! What a user sees of a session, and what is set by name.

use crate::anneal::{law_annealing_counts_iterations, ran};
use crate::formulas::pace_is;
use crate::numbers::{computes, lemma_pace, whole, Numbers};
use crate::paint::paints;
use crate::physics::{Brush, PaintReport, Params, Physics, Stats};
use crate::scene::set_up_blank;
use crate::session::{
    drawn_to, lifted, list_params, loaded, noted, opens, param_keys, param_values, read_param, session_params, shown,
    temperature_after, ticked, touched_down, with_params, ParamValue, SimHandle, Telemetry,
};
use crate::sim::Sim;
use crate::start::law_a_blank_canvas_is_blank;
use crate::stroke::TooLarge;
use crate::terms::{reach_is, unit_sign_by};
use vstd::prelude::*;
use vstd::string::*;

verus! {

/// What a user is shown reads true: how many iterations there were, how many
/// particles there are, the temperature and the energy, the share of proposals that
/// were accepted, the pace, the share of cells that are lit, how far the energy is
/// below where it counts from, and the size of a batch.
pub proof fn law_what_is_shown_in_numbers<P: Physics>(p: P, n: Numbers<P::Real>, handle: SimHandle<P::Real>, r: Vec<P::Real>)
    requires
        computes(p, n),
        handle.wf(),
        call_ensures(SimHandle::<P::Real>::live_stats::<P>, (&handle, &p), r),
        handle.sim.pos@.len() <= u64::MAX,
        handle.sim.params.h * handle.sim.params.w <= u64::MAX,
    ensures
        ({
            let sim = handle.sim;
            let (lit, cells) = (sim.pos@.len() as int, sim.params.h * sim.params.w);
            &&& r@.len() == 9
            &&& (n.val)(r@[0]) == whole(sim.iteration as int)
            &&& (n.val)(r@[1]) == whole(lit)
            &&& r@[2] == sim.params.temperature
            &&& r@[3] == sim.energy
            &&& (n.val)(r@[4]) * whole(sim.proposed as int) == whole(sim.accepted as int)
            &&& sim.proposed == 0 ==> (n.val)(r@[4]) == 0 as real
            &&& r@[5] == handle.telem.last_mps
            &&& cells > 0 ==> (n.val)(r@[6]) * whole(cells) == whole(lit)
            &&& cells == 0 ==> (n.val)(r@[6]) == 0 as real
            &&& (n.val)(r@[7]) + (n.val)(sim.energy) == (n.val)(handle.telem.baseline_energy)
            &&& (n.val)(r@[8]) == whole(sim.live_batch as int)
        }),
{
    let sim = handle.sim;
    let (lit, cells) = (sim.pos@.len() as int, sim.params.h * sim.params.w);
    assert(shown(p, handle, r@));
    if sim.proposed > 0 {
        lemma_share(whole(sim.accepted as int), whole(sim.proposed as int));
    }
    if cells > 0 {
        lemma_share(whole(lit), whole(cells));
    }
}

proof fn lemma_share(a: real, b: real)
    requires
        b > 0 as real,
    ensures
        a / b * b == a,
{
    assert(a / b * b == a) by (nonlinear_arith)
        requires
            b > 0 as real,
    ;
}

/// A session that is created has the lattice and the seed that were asked for, other
/// parameters by default, and shows no drop of energy and no pace yet.
pub proof fn law_sessions_start_level<P: Physics>(
    p: P,
    n: Numbers<P::Real>,
    h: i64,
    w: i64,
    seed: i64,
    particles: i64,
    defaults: Params<P::Real>,
    handle: SimHandle<P::Real>,
    r: Vec<P::Real>,
)
    requires
        computes(p, n),
        call_ensures(SimHandle::<P::Real>::create::<P>, (&p, h, w, seed, particles, defaults), Some(handle)),
        call_ensures(SimHandle::<P::Real>::live_stats::<P>, (&handle, &p), r),
        h <= usize::MAX && w <= usize::MAX && particles <= usize::MAX,
    ensures
        h > 0 && w > 0 && particles >= 0,
        handle.sim.params.h == h && handle.sim.params.w == w,
        seed >= 0 ==> handle.sim.params.seed == seed,
        handle.sim.params == (Params {
            h: handle.sim.params.h,
            w: handle.sim.params.w,
            seed: handle.sim.params.seed,
            ..defaults
        }),
        handle.sim.pos@.len() == (if particles <= h * w {
            particles as int
        } else {
            h * w
        }),
        (n.val)(r@[7]) == 0 as real,
        (n.val)(r@[5]) == 0 as real,
        !handle.paused,
{
    assert(shown(p, handle, r@));
    let params = session_params(h, w, seed, defaults);
    let sim = choose|sim: Sim<P::Real>| #[trigger]
        set_up_blank(p, params, particles as usize as int, sim) && opens(p, sim, handle);
}

/// Of the entries that are loaded the last that names the temperature counts.
pub proof fn law_the_last_temperature_counts<R>(start: R, entries: Seq<(String, Option<R>)>, i: int)
    requires
        0 <= i < entries.len(),
        entries[i].0@ == "temperature"@,
        entries[i].1 is Some,
        forall|k: int| i < k < entries.len() ==> (#[trigger] entries[k]).0@ != "temperature"@,
    ensures
        temperature_after(start, entries) == entries[i].1->Some_0,
    decreases entries.len(),
{
    if i < entries.len() - 1 {
        let less = entries.drop_last();
        assert(less[i] == entries[i]);
        assert forall|k: int| i < k < less.len() implies (#[trigger] less[k]).0@ != "temperature"@ by {
            assert(less[k] == entries[k]);
        }
        law_the_last_temperature_counts(start, less, i);
    }
}

/// Entries none of which names the temperature leave it alone.
pub proof fn law_other_entries_leave_the_temperature<R>(start: R, entries: Seq<(String, Option<R>)>)
    requires
        forall|k: int| 0 <= k < entries.len() ==> (#[trigger] entries[k]).0@ != "temperature"@,
    ensures
        temperature_after(start, entries) == start,
    decreases entries.len(),
{
    if entries.len() > 0 {
        let less = entries.drop_last();
        assert forall|k: int| 0 <= k < less.len() implies (#[trigger] less[k]).0@ != "temperature"@ by {
            assert(less[k] == entries[k]);
        }
        law_other_entries_leave_the_temperature(start, less);
    }
}

/// The names of all parameters are told apart by their letters.
proof fn lemma_names_differ()
    ensures
        "h"@ == seq!['h'],
        "w"@ == seq!['w'],
        "temperature"@.len() == 11,
        "strength"@.len() == 8,
        "screening"@.len() == 9,
        "cutoff"@.len() == 6 && "cutoff"@[1] == 'u',
        "charge"@.len() == 6 && "charge"@[1] == 'h',
        "attract_depth"@.len() == 13 && "attract_depth"@[8] == 'd',
        "attract_range"@.len() == 13 && "attract_range"@[8] == 'r',
        "batch"@.len() == 5,
        "batch_min"@.len() == 9 && "batch_min"@[0] == 'b',
        "screening"@[0] == 's',
        "batch_decrement"@.len() == 15,
        "fail_limit"@.len() == 10,
        "step_size"@.len() == 9 && "step_size"@[0] == 's' && "step_size"@[1] == 't',
        "screening"@[1] == 'c',
        "seed"@.len() == 4,
        "periodic"@.len() == 8 && "periodic"@[0] == 'p',
        "strength"@[0] == 's',
{
    reveal_strlit("h");
    reveal_strlit("w");
    reveal_strlit("temperature");
    reveal_strlit("strength");
    reveal_strlit("screening");
    reveal_strlit("cutoff");
    reveal_strlit("charge");
    reveal_strlit("attract_depth");
    reveal_strlit("attract_range");
    reveal_strlit("batch");
    reveal_strlit("batch_min");
    reveal_strlit("batch_decrement");
    reveal_strlit("fail_limit");
    reveal_strlit("step_size");
    reveal_strlit("seed");
    reveal_strlit("periodic");
    assert("h"@ =~= seq!['h']);
    assert("w"@ =~= seq!['w']);
}

/// Each name reads the parameter of that name.
pub proof fn law_names_read_their_own<R: Copy>(sim: Sim<R>, key: String, r: Option<ParamValue<R>>)
    requires
        call_ensures(read_param::<R>, (&sim, &key), r),
    ensures
        key@ == "h"@ ==> r == Some(ParamValue::<R>::Count(sim.params.h)),
        key@ == "w"@ ==> r == Some(ParamValue::<R>::Count(sim.params.w)),
        key@ == "temperature"@ ==> r == Some(ParamValue::Number(sim.params.temperature)),
        key@ == "strength"@ ==> r == Some(ParamValue::Number(sim.params.strength)),
        key@ == "screening"@ ==> r == Some(ParamValue::Number(sim.params.screening)),
        key@ == "cutoff"@ ==> r == Some(ParamValue::Number(sim.params.cutoff)),
        key@ == "charge"@ ==> r == Some(ParamValue::Number(sim.params.charge)),
        key@ == "attract_depth"@ ==> r == Some(ParamValue::Number(sim.params.attract_depth)),
        key@ == "attract_range"@ ==> r == Some(ParamValue::Number(sim.params.attract_range)),
        key@ == "batch"@ ==> r == Some(ParamValue::<R>::Count(sim.params.batch)),
        key@ == "batch_min"@ ==> r == Some(ParamValue::<R>::Count(sim.params.batch_min)),
        key@ == "batch_decrement"@ ==> r == Some(ParamValue::<R>::Count(sim.params.batch_decrement)),
        key@ == "fail_limit"@ ==> r == Some(ParamValue::<R>::Count(sim.params.fail_limit)),
        key@ == "step_size"@ ==> r == Some(ParamValue::<R>::Step(sim.params.step_size)),
        !param_keys().contains(key@) || key@ == "seed"@ || key@ == "periodic"@ ==> r is None,
{
    lemma_names_differ();
    law_all_parameters_are_known();
    assert("h"@[0] == 'h' && "w"@[0] == 'w');
}

/// Every parameter is listed under the name that it is read by; the seed and the flag
/// are listed alone.
pub proof fn law_parameters_are_listed_as_they_are_read<R: Copy>(
    sim: Sim<R>,
    listed: Vec<(String, ParamValue<R>)>,
    i: int,
    r: Option<ParamValue<R>>,
)
    requires
        call_ensures(list_params::<R>, (&sim.params,), listed),
        0 <= i < listed@.len(),
        call_ensures(read_param::<R>, (&sim, &listed@[i].0), r),
    ensures
        listed@.len() == 16,
        r is Some ==> r == Some(listed@[i].1),
        r is None ==> listed@[i].1 == ParamValue::<R>::Seed(sim.params.seed) || listed@[i].1 == ParamValue::<R>::Flag(
            sim.params.periodic,
        ),
        param_keys()[i] == listed@[i].0@,
{
    law_names_read_their_own(sim, listed@[i].0, r);
    let k = param_keys();
    assert(k.len() == 16);
    assert(k[0] == "h"@ && k[1] == "w"@ && k[2] == "seed"@ && k[3] == "strength"@ && k[4] == "screening"@ && k[5] == "cutoff"@);
    assert(k[6] == "periodic"@ && k[7] == "charge"@ && k[8] == "attract_depth"@ && k[9] == "attract_range"@);
    assert(k[10] == "temperature"@ && k[11] == "batch"@ && k[12] == "batch_min"@ && k[13] == "batch_decrement"@);
    assert(k[14] == "fail_limit"@ && k[15] == "step_size"@);
    let v = param_values(sim.params);
    assert(listed@[i].1 == v[i]);
}

/// A session that is paused stands still, and so does one that is asked for no
/// iterations; any other runs as many as it is asked for.
pub proof fn law_paused_sessions_stand_still<R: Copy>(handle: SimHandle<R>, iterations: i64)
    ensures
        handle.paused || iterations <= 0 ==> handle.due(iterations) == 0,
        !handle.paused && iterations > 0 ==> handle.due(iterations) == iterations,
{
}

/// The pace is told by the clock: moves per second, where each iteration is as many
/// moves as a full batch has, whatever the batch has shrunk to. A tick that took no
/// time tells none.
pub proof fn law_the_pace_is_told_by_the_clock<P: Physics>(
    p: P,
    n: Numbers<P::Real>,
    before: SimHandle<P::Real>,
    done: u64,
    seconds: P::Real,
    after: SimHandle<P::Real>,
)
    requires
        computes(p, n),
        noted(p, before, done, seconds, after),
        before.sim.params.batch <= u64::MAX,
    ensures
        (n.val)(seconds) > 0 as real ==> (n.val)(after.telem.last_mps) * (n.val)(seconds) == whole(done as int) * whole(
            before.sim.params.batch as int,
        ),
        (n.val)(seconds) <= 0 as real ==> after == before,
        after.sim == before.sim,
        after.telem.baseline_energy == before.telem.baseline_energy,
{
    let (zero, timed) = choose|zero: P::Real, timed: bool| #[trigger]
        call_ensures(P::exceeds, (&p, seconds, zero), timed) && call_ensures(P::zero, (&p,), zero) && if timed {
            &&& after == (SimHandle { telem: Telemetry { last_mps: after.telem.last_mps, ..before.telem }, ..before })
            &&& pace_is(p, done, before.sim.params.batch, seconds, after.telem.last_mps)
        } else {
            after == before
        };
    if timed {
        lemma_pace(p, n, done, before.sim.params.batch, seconds, after.telem.last_mps);
    }
}

/// What a user draws is painted when the brush is lifted: a touch on `(x, y)` as a
/// stroke of one point, in row `y` and column `x`, with the brush that was taken up,
/// which attracts if its sign is negative and else repels. The drop of energy counts
/// from then on.
pub proof fn law_a_touch_is_painted<P: Physics>(
    p: P,
    n: Numbers<P::Real>,
    h0: SimHandle<P::Real>,
    brush: Brush<P::Real>,
    sign: P::Real,
    h1: SimHandle<P::Real>,
    x: P::Real,
    y: P::Real,
    h2: SimHandle<P::Real>,
    h3: SimHandle<P::Real>,
) -> (painted: (Seq<[P::Real; 2]>, Brush<P::Real>, Result<PaintReport<P::Real>, TooLarge>))
    requires
        computes(p, n),
        touched_down(p, h0, brush, sign, h1),
        drawn_to(h1, x, y, h2),
        lifted(p, h2, h3),
    ensures
        ({
            let (points, used, r) = painted;
            &&& paints(p, h0.sim, h3.sim, points, used, true, r)
            &&& points.len() == 1 && points[0][0] == y && points[0][1] == x
            &&& used == (Brush { sign: used.sign, ..brush })
            &&& (n.val)(sign) < 0 as real ==> (n.val)(used.sign) == -(1 as real)
            &&& (n.val)(sign) >= 0 as real ==> (n.val)(used.sign) == 1 as real
            &&& r is Ok ==> h3.telem.baseline_energy == h3.sim.energy
            &&& r is Err ==> h3.telem.baseline_energy == h0.telem.baseline_energy
        }),
        h3.stroke is None && h3.paused == h0.paused,
        h3.telem.last_mps == h0.telem.last_mps,
{
    let s = h2.stroke->Some_0;
    let r = choose|r: Result<PaintReport<P::Real>, TooLarge>| #[trigger]
        paints(p, h2.sim, h3.sim, s.points@, s.brush, true, r) && match r {
            Ok(_) => h3.telem == (Telemetry { baseline_energy: h3.sim.energy, ..h2.telem }),
            Err(_) => h3.telem == h2.telem,
        };
    let (zero, one, up) = choose|zero: P::Real, one: P::Real, up: bool| #[trigger]
        unit_sign_by(p, sign, s.brush.sign, zero, one, up);
    (s.points@, s.brush, r)
}

/// A path is drawn point after point.
pub proof fn law_a_path_is_drawn_point_after_point<R>(
    before: SimHandle<R>,
    x: R,
    y: R,
    after: SimHandle<R>,
    i: int,
)
    requires
        drawn_to(before, x, y, after),
        before.stroke is Some,
        0 <= i < before.stroke->Some_0.points@.len(),
    ensures
        after.stroke is Some,
        ({
            let (was, now) = (before.stroke->Some_0.points@, after.stroke->Some_0.points@);
            &&& now.len() == was.len() + 1
            &&& now[i] == was[i]
            &&& now.last()[0] == y && now.last()[1] == x
        }),
        after.stroke->Some_0.brush == before.stroke->Some_0.brush,
        after.sim == before.sim && after.telem == before.telem,
{
}

/// A stroke without points paints nothing.
pub proof fn law_an_empty_stroke_paints_nothing<P: Physics>(
    p: P,
    h0: SimHandle<P::Real>,
    brush: Brush<P::Real>,
    sign: P::Real,
    h1: SimHandle<P::Real>,
    h2: SimHandle<P::Real>,
)
    requires
        touched_down(p, h0, brush, sign, h1),
        lifted(p, h1, h2),
    ensures
        h2.sim == h0.sim && h2.telem == h0.telem,
{
}

/// The counters that a gas tells are its own.
pub proof fn law_stats_are_those_of_the_gas<R: Copy>(sim: Sim<R>, s: Stats<R>)
    requires
        sim.wf(),
        sim.pos@.len() <= usize::MAX,
        call_ensures(Sim::<R>::stats, (&sim,), s),
    ensures
        s.iteration == sim.iteration && s.dead_proposals == sim.dead_proposals && s.fail_streak == sim.fail_streak,
        s.accepted == sim.accepted <= s.proposed == sim.proposed,
        sim.pos@.len() > 0 ==> s.proposed + s.dead_proposals == s.iteration,
        s.particles == sim.pos@.len(),
        s.batch == sim.live_batch,
        s.energy == sim.energy && s.temperature == sim.params.temperature,
{
}

/// A tick anneals the gas, for as many iterations as it says, and leaves the stroke
/// that is being drawn and the energy from which the drop counts alone.
pub proof fn law_ticks_anneal<P: Physics>(
    p: P,
    before: SimHandle<P::Real>,
    iterations: i64,
    after: SimHandle<P::Real>,
    done: u64,
)
    requires
        ticked(p, before, iterations, after, done),
        before.sim.iteration + done <= u64::MAX,
    ensures
        !before.paused && iterations > 0 ==> done == iterations && after.telem.last_tick_iterations == iterations,
        before.paused || iterations <= 0 ==> done == 0 && after == before,
        ran(p, before.sim@, done as nat, after.sim@),
        after.sim.iteration == before.sim.iteration + done,
        after.sim.params == before.sim.params,
        after.telem.baseline_energy == before.telem.baseline_energy,
        after.stroke == before.stroke && after.paused == before.paused,
{
    if done > 0 {
        law_annealing_counts_iterations(p, before.sim@, done as nat, after.sim@);
    }
}

/// A preset that is loaded is an empty canvas with the parameters there are, from
/// which the drop of energy counts; there is one, named `blank`.
pub proof fn law_presets_are_empty_canvases<P: Physics>(
    p: P,
    n: Numbers<P::Real>,
    before: SimHandle<P::Real>,
    name: Seq<char>,
    after: SimHandle<P::Real>,
    r: bool,
    c: int,
)
    requires
        computes(p, n),
        loaded(p, before, name, after, r),
        before.wf(),
        after.wf(),
        0 <= c < after.sim.params.h * after.sim.params.w,
    ensures
        r ==> {
            &&& name == "blank"@
            &&& after.sim.params == before.sim.params
            &&& after.sim.pos@.len() == 0 && after.sim.iteration == 0
            &&& !after.sim.blocked@[c] && (n.val)(after.sim.paint@[c]) == 0 as real
            &&& after.telem.baseline_energy == after.sim.energy
            &&& after.telem.last_mps == before.telem.last_mps
        },
        !r ==> after == before,
        name == "blank"@ && (forall|rc: usize| #[trigger] reach_is(p, before.sim.params.cutoff, rc) ==> rc == before.sim.rc) ==> r,
{
    if r {
        law_a_blank_canvas_is_blank(p, n, before.sim.params, 0, after.sim, c);
    }
}

/// Entries are loaded together or not at all: one that is not known, or has no
/// number, keeps all of them from being loaded.
pub proof fn law_entries_are_loaded_together<R>(sim: Sim<R>, entries: Seq<(String, Option<R>)>, i: int)
    requires
        0 <= i < entries.len(),
    ensures
        entries[i].1 is None || !param_keys().contains(entries[i].0@) ==> with_params(sim, entries) == sim,
        with_params(sim, entries) == (Sim {
            params: Params { temperature: with_params(sim, entries).params.temperature, ..sim.params },
            ..sim
        }),
{
}

/// All parameters are known by name.
pub proof fn law_all_parameters_are_known()
    ensures
        param_keys().len() == 16,
        param_keys().contains("h"@) && param_keys().contains("w"@) && param_keys().contains("seed"@),
        param_keys().contains("strength"@) && param_keys().contains("screening"@) && param_keys().contains("cutoff"@),
        param_keys().contains("periodic"@) && param_keys().contains("charge"@),
        param_keys().contains("attract_depth"@) && param_keys().contains("attract_range"@),
        param_keys().contains("temperature"@) && param_keys().contains("batch"@) && param_keys().contains("batch_min"@),
        param_keys().contains("batch_decrement"@) && param_keys().contains("fail_limit"@) && param_keys().contains("step_size"@),
{
    let k = param_keys();
    assert(k[0] == "h"@ && k[1] == "w"@ && k[2] == "seed"@ && k[3] == "strength"@ && k[4] == "screening"@ && k[5] == "cutoff"@);
    assert(k[6] == "periodic"@ && k[7] == "charge"@ && k[8] == "attract_depth"@ && k[9] == "attract_range"@);
    assert(k[10] == "temperature"@ && k[11] == "batch"@ && k[12] == "batch_min"@ && k[13] == "batch_decrement"@);
    assert(k[14] == "fail_limit"@ && k[15] == "step_size"@);
}

} // verus!

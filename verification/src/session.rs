//! A gas under the hands of a user: ticking, painting, parameters and live
//! statistics.

use crate::anneal::ran;
use crate::convolve::field_fits;
use crate::formulas::{pace, pace_is};
use crate::paint::paints;
use crate::physics::{Brush, PaintReport, Params, Physics};
use crate::scene::{geometry_fits, has_geometry, set_up_blank};
use crate::sim::Sim;
use crate::spectrum::keeps_length;
use crate::stroke::TooLarge;
use crate::terms::{reach_is, unit_sign, unit_sign_is};
use crate::undo::{cleared, undone};
use vstd::prelude::*;
use vstd::string::*;

verus! {

/// What is measured while a session runs.
#[derive(Debug)]
pub struct Telemetry<R> {
    pub last_tick_iterations: u64,
    pub last_mps: R,
    /// The energy from which the drop is counted. A stroke and a preset set it
    /// anew.
    pub baseline_energy: R,
}

/// A stroke that is being drawn.
#[derive(Debug)]
pub struct InFlightStroke<R> {
    pub brush: Brush<R>,
    pub points: Vec<[R; 2]>,
}

/// A session on a gas.
#[derive(Debug)]
pub struct SimHandle<R> {
    pub sim: Sim<R>,
    pub telem: Telemetry<R>,
    pub paused: bool,
    pub stroke: Option<InFlightStroke<R>>,
}

/// A gas of so many cells can be asked for.
pub open spec fn can_be_asked_for(h: i64, w: i64, n_particles: i64) -> bool {
    h > 0 && w > 0 && n_particles >= 0
}

/// The parameters of a session of `h` by `w` cells, the others by default.
pub open spec fn session_params<R>(h: i64, w: i64, seed: i64, defaults: Params<R>) -> Params<R> {
    Params { h: h as usize, w: w as usize, seed: seed as u64, ..defaults }
}

/// `handle` is a session that starts on `sim`.
pub open spec fn opens<P: Physics>(p: P, sim: Sim<P::Real>, handle: SimHandle<P::Real>) -> bool {
    &&& handle.sim == sim
    &&& handle.telem.last_tick_iterations == 0
    &&& call_ensures(P::zero, (&p,), handle.telem.last_mps)
    &&& handle.telem.baseline_energy == sim.energy
    &&& !handle.paused
    &&& handle.stroke is None
}

/// `after` is `before` once a tick of `iterations` has run `done` of them.
pub open spec fn ticked<P: Physics>(
    p: P,
    before: SimHandle<P::Real>,
    iterations: i64,
    after: SimHandle<P::Real>,
    done: u64,
) -> bool {
    &&& done == before.due(iterations)
    &&& if done == 0 {
        after == before
    } else {
        &&& after == (SimHandle { sim: after.sim, telem: Telemetry { last_tick_iterations: done, ..before.telem }, ..before })
        &&& after.sim.same_scene(before.sim)
        &&& ran(p, before.sim@, done as nat, after.sim@)
        &&& after.sim.iteration == before.sim.iteration + done
    }
}

/// `after` is `before` once the preset of that name was looked for, which `r` says
/// whether there is.
pub open spec fn loaded<P: Physics>(p: P, before: SimHandle<P::Real>, name: Seq<char>, after: SimHandle<P::Real>, r: bool) -> bool {
    if r {
        &&& name == "blank"@
        &&& set_up_blank(p, before.sim.params, 0, after.sim)
        &&& after == (SimHandle {
            sim: after.sim,
            telem: Telemetry { baseline_energy: after.sim.energy, ..before.telem },
            ..before
        })
    } else {
        &&& after == before
        &&& name == "blank"@ ==> exists|rc: usize| #[trigger]
            reach_is(p, before.sim.params.cutoff, rc) && !field_fits(
                before.sim.params.h as int,
                before.sim.params.w as int,
                rc as int,
                before.sim.params.periodic,
            )
    }
}

/// `after` is `before` once it is known how long a tick of `done` iterations took.
pub open spec fn noted<P: Physics>(
    p: P,
    before: SimHandle<P::Real>,
    done: u64,
    seconds: P::Real,
    after: SimHandle<P::Real>,
) -> bool {
    exists|zero: P::Real, timed: bool| #[trigger]
        call_ensures(P::exceeds, (&p, seconds, zero), timed) && call_ensures(P::zero, (&p,), zero) && if timed {
            &&& after == (SimHandle { telem: Telemetry { last_mps: after.telem.last_mps, ..before.telem }, ..before })
            &&& pace_is(p, done, before.sim.params.batch, seconds, after.telem.last_mps)
        } else {
            after == before
        }
}

/// `after` is `before` once the brush has touched down.
pub open spec fn touched_down<P: Physics>(
    p: P,
    before: SimHandle<P::Real>,
    brush: Brush<P::Real>,
    sign: P::Real,
    after: SimHandle<P::Real>,
) -> bool {
    &&& after == (SimHandle { stroke: after.stroke, ..before })
    &&& after.stroke matches Some(s) && {
        &&& s.points@.len() == 0
        &&& s.brush == (Brush { sign: s.brush.sign, ..brush })
        &&& unit_sign_is(p, sign, s.brush.sign)
    }
}

/// `after` is `before` once the brush has moved to `(x, y)`.
pub open spec fn drawn_to<R>(before: SimHandle<R>, x: R, y: R, after: SimHandle<R>) -> bool {
    &&& after == (SimHandle { stroke: after.stroke, ..before })
    &&& match before.stroke {
        None => after.stroke is None,
        Some(s) => after.stroke matches Some(t) && t.brush == s.brush && t.points@ == s.points@.push([y, x]),
    }
}

/// `after` is `before` once the brush is lifted.
pub open spec fn lifted<P: Physics>(p: P, before: SimHandle<P::Real>, after: SimHandle<P::Real>) -> bool {
    &&& after.stroke is None
    &&& after.paused == before.paused
    &&& match before.stroke {
        None => after.sim == before.sim && after.telem == before.telem,
        Some(s) => if s.points@.len() == 0 {
            after.sim == before.sim && after.telem == before.telem
        } else {
            exists|r: Result<PaintReport<P::Real>, TooLarge>| #[trigger]
                paints(p, before.sim, after.sim, s.points@, s.brush, true, r) && match r {
                    Ok(_) => after.telem == (Telemetry { baseline_energy: after.sim.energy, ..before.telem }),
                    Err(_) => after.telem == before.telem,
                }
        },
    }
}

impl<R: Copy> SimHandle<R> {
    pub open spec fn wf(self) -> bool {
        self.sim.wf()
    }

    /// A session on a gas.
    pub fn new<P: Physics<Real = R>>(p: &P, sim: Sim<R>) -> (handle: Self)
        ensures
            opens(*p, sim, handle),
    {
        let energy = sim.energy;
        SimHandle {
            sim,
            telem: Telemetry { last_tick_iterations: 0, last_mps: p.zero(), baseline_energy: energy },
            paused: false,
            stroke: None,
        }
    }

    /// A session on a blank canvas. `None` if there is no such canvas, or it is
    /// more than the machine has room for.
    pub fn create<P: Physics<Real = R>>(p: &P, h: i64, w: i64, seed: i64, n_particles: i64, defaults: Params<R>) -> (r: Option<Self>)
        requires
            keeps_length(*p),
        ensures
            ({
                let params = session_params(h, w, seed, defaults);
                match r {
                    Some(handle) => {
                        &&& can_be_asked_for(h, w, n_particles)
                        &&& handle.wf()
                        &&& exists|sim: Sim<R>| #[trigger]
                            set_up_blank(*p, params, n_particles as usize as int, sim) && opens(*p, sim, handle)
                    },
                    None => !can_be_asked_for(h, w, n_particles) || !geometry_fits(params) || params.h * params.w > usize::MAX
                        || exists|rc: usize| #[trigger]
                        reach_is(*p, params.cutoff, rc) && !field_fits(
                            params.h as int,
                            params.w as int,
                            rc as int,
                            params.periodic,
                        ),
                }
            }),
    {
        if h <= 0 || w <= 0 || n_particles < 0 {
            return None;
        }
        let params = Params { h: h as usize, w: w as usize, seed: seed as u64, ..defaults };
        if !has_geometry(&params) || params.h.checked_mul(params.w).is_none() {
            return None;
        }
        match Sim::new_blank(p, params, n_particles as usize) {
            Some(sim) => {
                assert(set_up_blank(*p, session_params(h, w, seed, defaults), n_particles as usize as int, sim));
                Some(SimHandle::new(p, sim))
            },
            None => None,
        }
    }

    pub fn pause(&mut self)
        ensures
            *final(self) == (SimHandle { paused: true, ..*old(self) }),
    {
        self.paused = true;
    }

    pub fn resume(&mut self)
        ensures
            *final(self) == (SimHandle { paused: false, ..*old(self) }),
    {
        self.paused = false;
    }

    /// How many iterations a tick of `iterations` comes to.
    pub open spec fn due(self, iterations: i64) -> int {
        if self.paused || iterations <= 0 {
            0
        } else {
            iterations as int
        }
    }

    /// Anneals for `iterations`, unless the session is paused. Returns how many
    /// iterations were run.
    pub fn tick<P: Physics<Real = R>>(&mut self, p: &P, iterations: i64) -> (done: u64)
        requires
            old(self).wf(),
            old(self).sim.can_run(old(self).due(iterations)),
        ensures
            final(self).wf(),
            ticked(*p, *old(self), iterations, *final(self), done),
    {
        if self.paused || iterations <= 0 {
            return 0;
        }
        let ghost gas = self.sim@;
        let before = self.sim.iteration;
        self.sim.step_many(p, iterations as u64);
        proof {
            crate::anneal::law_annealing_counts_iterations(*p, gas, iterations as nat, self.sim@);
        }
        let done = self.sim.iteration - before;
        self.telem.last_tick_iterations = done;
        done
    }

    /// Takes in how long the last tick took, to tell the pace of the moves.
    pub fn note_pace<P: Physics<Real = R>>(&mut self, p: &P, done: u64, seconds: R)
        ensures
            noted(*p, *old(self), done, seconds, *final(self)),
            old(self).wf() ==> final(self).wf(),
    {
        let zero = p.zero();
        let timed = p.exceeds(seconds, zero);
        if timed {
            self.telem.last_mps = pace(p, done, self.sim.params.batch, seconds);
        }
        assert(call_ensures(P::exceeds, (p, seconds, zero), timed));
    }

    /// The brush touches down.
    pub fn paint_begin<P: Physics<Real = R>>(&mut self, p: &P, brush: Brush<R>, sign: R)
        ensures
            touched_down(*p, *old(self), brush, sign, *final(self)),
            old(self).wf() ==> final(self).wf(),
    {
        let brush = Brush { sign: unit_sign(p, sign), ..brush };
        self.stroke = Some(InFlightStroke { brush, points: Vec::new() });
    }

    /// The brush moves to `(x, y)`.
    pub fn paint_stroke_point(&mut self, x: R, y: R)
        ensures
            drawn_to(*old(self), x, y, *final(self)),
            old(self).wf() ==> final(self).wf(),
    {
        match self.stroke.take() {
            None => {},
            Some(mut s) => {
                s.points.push([y, x]);
                self.stroke = Some(s);
            },
        }
    }

    /// The brush lifts: the stroke is painted, and the drop of energy counts
    /// from then on.
    pub fn paint_end<P: Physics<Real = R>>(&mut self, p: &P)
        requires
            keeps_length(*p),
            old(self).wf(),
        ensures
            final(self).wf(),
            lifted(*p, *old(self), *final(self)),
    {
        let ghost before = *self;
        match self.stroke.take() {
            None => {},
            Some(s) => {
                if s.points.len() > 0 {
                    let r = self.sim.paint_stroke(p, &s.points, &s.brush, true);
                    assert(paints(*p, before.sim, self.sim, s.points@, s.brush, true, r));
                    if r.is_ok() {
                        self.telem.baseline_energy = self.sim.energy;
                    }
                }
            },
        }
    }

    /// Takes the last stroke back, if there is one.
    pub fn undo<P: Physics<Real = R>>(&mut self, p: &P) -> (r: bool)
        requires
            keeps_length(*p),
            old(self).wf(),
        ensures
            final(self).wf(),
            *final(self) == (SimHandle { sim: final(self).sim, ..*old(self) }),
            r == (old(self).sim.strokes@.len() > 0),
            if r {
                undone(*p, old(self).sim, final(self).sim)
            } else {
                final(self).sim == old(self).sim
            },
    {
        self.sim.undo_stroke(p)
    }

    /// Wipes all paint off.
    pub fn clear_paint<P: Physics<Real = R>>(&mut self, p: &P)
        requires
            keeps_length(*p),
            old(self).wf(),
        ensures
            final(self).wf(),
            *final(self) == (SimHandle { sim: final(self).sim, ..*old(self) }),
            cleared(*p, old(self).sim, final(self).sim),
    {
        self.sim.clear_paint(p);
    }
}

/// The value of a parameter.
#[derive(Debug, Clone, Copy)]
pub enum ParamValue<R> {
    Count(usize),
    Seed(u64),
    Step(i32),
    Flag(bool),
    Number(R),
}

/// The parameter that `key` names, of those that can be read alone.
pub open spec fn param_named<R>(params: Params<R>, key: Seq<char>) -> Option<ParamValue<R>> {
    if key == "h"@ {
        Some(ParamValue::Count(params.h))
    } else if key == "w"@ {
        Some(ParamValue::Count(params.w))
    } else if key == "temperature"@ {
        Some(ParamValue::Number(params.temperature))
    } else if key == "strength"@ {
        Some(ParamValue::Number(params.strength))
    } else if key == "screening"@ {
        Some(ParamValue::Number(params.screening))
    } else if key == "cutoff"@ {
        Some(ParamValue::Number(params.cutoff))
    } else if key == "charge"@ {
        Some(ParamValue::Number(params.charge))
    } else if key == "attract_depth"@ {
        Some(ParamValue::Number(params.attract_depth))
    } else if key == "attract_range"@ {
        Some(ParamValue::Number(params.attract_range))
    } else if key == "batch"@ {
        Some(ParamValue::Count(params.batch))
    } else if key == "batch_min"@ {
        Some(ParamValue::Count(params.batch_min))
    } else if key == "batch_decrement"@ {
        Some(ParamValue::Count(params.batch_decrement))
    } else if key == "fail_limit"@ {
        Some(ParamValue::Count(params.fail_limit))
    } else if key == "step_size"@ {
        Some(ParamValue::Step(params.step_size))
    } else {
        None
    }
}

pub(crate) fn reads(key: &String, name: &str) -> (r: bool)
    ensures
        r == (key@ == name@),
{
    *key == String::from_str(name)
}

/// Reads a parameter by its name.
pub fn read_param<R: Copy>(sim: &Sim<R>, key: &String) -> (r: Option<ParamValue<R>>)
    ensures
        r == param_named(sim.params, key@),
{
    let p = sim.params();
    if reads(key, "h") {
        Some(ParamValue::Count(p.h))
    } else if reads(key, "w") {
        Some(ParamValue::Count(p.w))
    } else if reads(key, "temperature") {
        Some(ParamValue::Number(p.temperature))
    } else if reads(key, "strength") {
        Some(ParamValue::Number(p.strength))
    } else if reads(key, "screening") {
        Some(ParamValue::Number(p.screening))
    } else if reads(key, "cutoff") {
        Some(ParamValue::Number(p.cutoff))
    } else if reads(key, "charge") {
        Some(ParamValue::Number(p.charge))
    } else if reads(key, "attract_depth") {
        Some(ParamValue::Number(p.attract_depth))
    } else if reads(key, "attract_range") {
        Some(ParamValue::Number(p.attract_range))
    } else if reads(key, "batch") {
        Some(ParamValue::Count(p.batch))
    } else if reads(key, "batch_min") {
        Some(ParamValue::Count(p.batch_min))
    } else if reads(key, "batch_decrement") {
        Some(ParamValue::Count(p.batch_decrement))
    } else if reads(key, "fail_limit") {
        Some(ParamValue::Count(p.fail_limit))
    } else if reads(key, "step_size") {
        Some(ParamValue::Step(p.step_size))
    } else {
        None
    }
}

/// Sets a parameter by its name. The temperature can be set while the gas is
/// there; other names are passed over.
pub fn apply_param<R: Copy>(sim: &mut Sim<R>, key: &String, value: R)
    ensures
        *final(sim) == (if key@ == "temperature"@ {
            Sim { params: Params { temperature: value, ..old(sim).params }, ..*old(sim) }
        } else {
            *old(sim)
        }),
        old(sim).wf() ==> final(sim).wf(),
{
    if reads(key, "temperature") {
        sim.set_temperature(value);
    }
}

/// The temperature that entries come to, `start` if none of them sets it.
pub open spec fn temperature_after<R>(start: R, entries: Seq<(String, Option<R>)>) -> R
    decreases entries.len(),
{
    if entries.len() == 0 {
        start
    } else {
        match entries.last() {
            (key, Some(value)) if key@ == "temperature"@ => value,
            _ => temperature_after(start, entries.drop_last()),
        }
    }
}

/// The names under which all parameters are listed, in order.
pub open spec fn param_keys() -> Seq<Seq<char>> {
    seq![
        "h"@,
        "w"@,
        "seed"@,
        "strength"@,
        "screening"@,
        "cutoff"@,
        "periodic"@,
        "charge"@,
        "attract_depth"@,
        "attract_range"@,
        "temperature"@,
        "batch"@,
        "batch_min"@,
        "batch_decrement"@,
        "fail_limit"@,
        "step_size"@,
    ]
}

/// All of `entries` name a parameter and give it a number.
pub open spec fn all_known<R>(entries: Seq<(String, Option<R>)>) -> bool {
    forall|i: int|
        0 <= i < entries.len() ==> param_keys().contains((#[trigger] entries[i]).0@) && entries[i].1 is Some
}

/// Whether `key` names a parameter.
fn is_param(key: &String) -> (r: bool)
    ensures
        r == param_keys().contains(key@),
{
    let r = reads(key, "h") || reads(key, "w") || reads(key, "seed") || reads(key, "strength") || reads(key, "screening") || reads(
        key,
        "cutoff",
    ) || reads(key, "periodic") || reads(key, "charge") || reads(key, "attract_depth") || reads(key, "attract_range") || reads(
        key,
        "temperature",
    ) || reads(key, "batch") || reads(key, "batch_min") || reads(key, "batch_decrement") || reads(key, "fail_limit") || reads(
        key,
        "step_size",
    );
    proof {
        let keys = param_keys();
        if r {
            let i = choose|i: int| 0 <= i < keys.len() && #[trigger] keys[i] == key@;
            assert(keys[0] == "h"@ && keys[1] == "w"@ && keys[2] == "seed"@ && keys[3] == "strength"@);
            assert(keys[4] == "screening"@ && keys[5] == "cutoff"@ && keys[6] == "periodic"@ && keys[7] == "charge"@);
            assert(keys[8] == "attract_depth"@ && keys[9] == "attract_range"@ && keys[10] == "temperature"@);
            assert(keys[11] == "batch"@ && keys[12] == "batch_min"@ && keys[13] == "batch_decrement"@);
            assert(keys[14] == "fail_limit"@ && keys[15] == "step_size"@);
        }
    }
    r
}

/// The gas once `entries` are loaded: all of them, or nothing if one is not
/// known or has no number.
pub open spec fn with_params<R>(sim: Sim<R>, entries: Seq<(String, Option<R>)>) -> Sim<R> {
    if all_known(entries) {
        Sim { params: Params { temperature: temperature_after(sim.params.temperature, entries), ..sim.params }, ..sim }
    } else {
        sim
    }
}

/// Loads parameters by their names, in order, and says whether all of them are
/// known and have a number. If not, nothing is loaded.
pub fn apply_params<R: Copy>(sim: &mut Sim<R>, entries: &Vec<(String, Option<R>)>) -> (ok: bool)
    ensures
        ok == all_known(entries@),
        *final(sim) == with_params(*old(sim), entries@),
        old(sim).wf() ==> final(sim).wf(),
{
    let ghost before = *sim;
    let mut i: usize = 0;
    while i < entries.len()
        invariant
            i <= entries@.len(),
            forall|k: int| 0 <= k < i ==> param_keys().contains((#[trigger] entries@[k]).0@) && entries@[k].1 is Some,
        decreases entries@.len() - i,
    {
        if !is_param(&entries[i].0) || entries[i].1.is_none() {
            assert(!(param_keys().contains(entries@[i as int].0@) && entries@[i as int].1 is Some));
            return false;
        }
        i = i + 1;
    }
    let mut i: usize = 0;
    assert(entries@.take(0) =~= Seq::empty());
    while i < entries.len()
        invariant
            i <= entries@.len(),
            *sim == (Sim {
                params: Params {
                    temperature: temperature_after(before.params.temperature, entries@.take(i as int)),
                    ..before.params
                },
                ..before
            }),
            before.wf() ==> sim.wf(),
        decreases entries@.len() - i,
    {
        proof {
            let more = entries@.take(i + 1);
            assert(more.drop_last() =~= entries@.take(i as int));
            assert(more.last() == entries@[i as int]);
        }
        match entries[i].1 {
            Some(value) => apply_param(sim, &entries[i].0, value),
            None => {},
        }
        i = i + 1;
    }
    assert(entries@.take(i as int) =~= entries@);
    true
}

/// All parameters, in the order of their names.
pub open spec fn param_values<R>(p: Params<R>) -> Seq<ParamValue<R>> {
    seq![
        ParamValue::Count(p.h),
        ParamValue::Count(p.w),
        ParamValue::Seed(p.seed),
        ParamValue::Number(p.strength),
        ParamValue::Number(p.screening),
        ParamValue::Number(p.cutoff),
        ParamValue::Flag(p.periodic),
        ParamValue::Number(p.charge),
        ParamValue::Number(p.attract_depth),
        ParamValue::Number(p.attract_range),
        ParamValue::Number(p.temperature),
        ParamValue::Count(p.batch),
        ParamValue::Count(p.batch_min),
        ParamValue::Count(p.batch_decrement),
        ParamValue::Count(p.fail_limit),
        ParamValue::Step(p.step_size),
    ]
}

/// Lists all parameters by name.
pub fn list_params<R: Copy>(p: &Params<R>) -> (r: Vec<(String, ParamValue<R>)>)
    ensures
        r@.len() == param_keys().len(),
        forall|i: int| 0 <= i < r@.len() ==> (#[trigger] r@[i]).0@ == param_keys()[i] && r@[i].1 == param_values(*p)[i],
{
    let mut r: Vec<(String, ParamValue<R>)> = Vec::new();
    r.push((String::from_str("h"), ParamValue::Count(p.h)));
    r.push((String::from_str("w"), ParamValue::Count(p.w)));
    r.push((String::from_str("seed"), ParamValue::Seed(p.seed)));
    r.push((String::from_str("strength"), ParamValue::Number(p.strength)));
    r.push((String::from_str("screening"), ParamValue::Number(p.screening)));
    r.push((String::from_str("cutoff"), ParamValue::Number(p.cutoff)));
    r.push((String::from_str("periodic"), ParamValue::Flag(p.periodic)));
    r.push((String::from_str("charge"), ParamValue::Number(p.charge)));
    r.push((String::from_str("attract_depth"), ParamValue::Number(p.attract_depth)));
    r.push((String::from_str("attract_range"), ParamValue::Number(p.attract_range)));
    r.push((String::from_str("temperature"), ParamValue::Number(p.temperature)));
    r.push((String::from_str("batch"), ParamValue::Count(p.batch)));
    r.push((String::from_str("batch_min"), ParamValue::Count(p.batch_min)));
    r.push((String::from_str("batch_decrement"), ParamValue::Count(p.batch_decrement)));
    r.push((String::from_str("fail_limit"), ParamValue::Count(p.fail_limit)));
    r.push((String::from_str("step_size"), ParamValue::Step(p.step_size)));
    r
}

impl<R: Copy> SimHandle<R> {
    /// Loads a preset: `blank` is an empty canvas with the parameters there are.
    /// The drop of energy counts from then on. Returns whether there is such a
    /// preset.
    pub fn load_preset<P: Physics<Real = R>>(&mut self, p: &P, name: &String) -> (r: bool)
        requires
            keeps_length(*p),
            old(self).wf(),
        ensures
            final(self).wf(),
            loaded(*p, *old(self), name@, *final(self), r),
    {
        if !reads(name, "blank") {
            return false;
        }
        let params = self.sim.params;
        let cells = self.sim.occ.len();
        match Sim::new_blank(p, params, 0) {
            Some(fresh) => {
                self.telem.baseline_energy = fresh.energy;
                self.sim = fresh;
                true
            },
            None => false,
        }
    }
}

/// `r` holds what a user is shown: iterations, particles, temperature, energy,
/// rate of acceptance, moves per second, share of lit cells, drop of energy and
/// size of a batch.
pub open spec fn shown<P: Physics>(p: P, handle: SimHandle<P::Real>, r: Seq<P::Real>) -> bool {
    let sim = handle.sim;
    let cells = (sim.params.h * sim.params.w) as u64;
    &&& r.len() == 9
    &&& call_ensures(P::count, (&p, sim.iteration), r[0])
    &&& call_ensures(P::count, (&p, sim.pos@.len() as u64), r[1])
    &&& r[2] == sim.params.temperature
    &&& r[3] == sim.energy
    &&& if sim.proposed == 0 {
        call_ensures(P::zero, (&p,), r[4])
    } else {
        call_ensures(P::ratio, (&p, sim.accepted, sim.proposed), r[4])
    }
    &&& r[5] == handle.telem.last_mps
    &&& if cells == 0 {
        call_ensures(P::zero, (&p,), r[6])
    } else {
        call_ensures(P::ratio, (&p, sim.pos@.len() as u64, cells), r[6])
    }
    &&& call_ensures(P::minus, (&p, handle.telem.baseline_energy, sim.energy), r[7])
    &&& call_ensures(P::count, (&p, sim.live_batch as u64), r[8])
}

impl<R: Copy> SimHandle<R> {
    /// What a user is shown.
    pub fn live_stats<P: Physics<Real = R>>(&self, p: &P) -> (r: Vec<R>)
        requires
            self.wf(),
        ensures
            shown(*p, *self, r@),
    {
        let stats = self.sim.stats();
        let (size, particles) = (self.sim.occ.len(), self.sim.pos.len());
        let cells: u64 = (self.sim.params.h * self.sim.params.w) as u64;
        let occupancy = if cells > 0 { p.ratio(particles as u64, cells) } else { p.zero() };
        let drop = p.minus(self.telem.baseline_energy, stats.energy);
        let mut r: Vec<R> = Vec::new();
        r.push(p.count(stats.iteration));
        r.push(p.count(particles as u64));
        r.push(stats.temperature);
        r.push(stats.energy);
        r.push(stats.acceptance(p));
        r.push(self.telem.last_mps);
        r.push(occupancy);
        r.push(drop);
        r.push(p.count(stats.batch as u64));
        r
    }
}

} // verus!

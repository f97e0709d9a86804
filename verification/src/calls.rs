//! What the operations on a gas, a session, a device run and a surface do to it.

use crate::anneal::{ran, stepped};
use crate::balance::sound;
use crate::convolve::field_fits;
use crate::exact::energy;
use crate::gpu::{
    count_sum, goes_on, launched, mcg_below, starts_from, sweep_opens, taken_in, weighed_afresh, GpuSim, Launch, Sweep,
    Upload,
};
use crate::json::{json_entries, load_params, values_read};
use crate::kernel::table_fits;
use crate::limits::law_ordinary_lattices_have_room;
use crate::numbers::{computes, Numbers};
use crate::offsets::{build_offset_table, total_energy_from_offsets, OffsetTable};
use crate::paint::{lays, paints, records};
use crate::parity::{law_energy_by_steps_is_that_of_the_pairs, narrowly_exact};
use crate::physics::{Brush, PaintReport, Params, Physics};
use crate::scenario::{
    chained, cutoff_refused, measured, refused_at, run_chain, run_scenario, stroke_refused, Chain, RunResult, Scenario,
};
use crate::scene::{evenly_lit, set_up, set_up_blank};
use crate::session::{
    all_known, apply_param, apply_params, drawn_to, lifted, loaded, noted, temperature_after, ticked, touched_down,
    SimHandle,
};
use crate::sim::{Layout, Sim};
use crate::stroke::{StrokePatch, TooLarge};
use crate::surface::{first_liked, on_frame, planned, resized, FrameAction, FramePlan, FrameStatus, SurfaceState};
use crate::terms::reach_is;
use crate::undo::{cleared, undone, undone_by};
use vstd::prelude::*;

verus! {

/// A step is one iteration, and a run as many as it is asked for; none of them
/// touches lines or paint.
pub proof fn law_runs_are_iterations<P: Physics>(
    p: P,
    one: &mut Sim<P::Real>,
    took: bool,
    many: &mut Sim<P::Real>,
    n: u64,
    all: &mut Sim<P::Real>,
)
    requires
        old(one).wf() && old(one).can_run(1),
        old(many).wf() && old(many).can_run(n as int),
        old(all).wf() && old(all).can_run(n as int),
        call_ensures(Sim::<P::Real>::step::<P>, (one, &p), took),
        call_ensures(Sim::<P::Real>::step_many::<P>, (many, &p, n), ()),
        call_ensures(Sim::<P::Real>::run::<P>, (all, &p, n), ()),
    ensures
        stepped(p, old(one)@, final(one)@, took),
        ran(p, old(many)@, n as nat, final(many)@),
        ran(p, old(all)@, n as nat, final(all)@),
        final(one).paint == old(one).paint && final(many).paint == old(many).paint && final(all).paint == old(all).paint,
        final(one).cov == old(one).cov && final(many).cov == old(many).cov && final(all).cov == old(all).cov,
        final(one).wf() && final(many).wf() && final(all).wf(),
{
}

/// A stroke along points is painted, and a patch is laid down; where either is
/// refused, nothing changes.
pub proof fn law_strokes_are_painted_or_refused<P: Physics>(
    p: P,
    sim: &mut Sim<P::Real>,
    points: Vec<[P::Real; 2]>,
    brush: Brush<P::Real>,
    first: bool,
    r: Result<PaintReport<P::Real>, TooLarge>,
    under: &mut Sim<P::Real>,
    patch: StrokePatch<P::Real>,
    laid: Result<PaintReport<P::Real>, TooLarge>,
)
    requires
        old(sim).wf(),
        old(under).wf(),
        patch.wf(),
        call_ensures(Sim::<P::Real>::paint_stroke::<P>, (sim, &p, &points, &brush, first), r),
        call_ensures(Sim::<P::Real>::lay_stroke::<P>, (under, &p, &patch, &brush, first), laid),
    ensures
        paints(p, *old(sim), *final(sim), points@, brush, first, r),
        lays(p, *old(under), *final(under), patch, brush, first, laid),
        r is Err ==> *final(sim) == *old(sim),
        laid is Err ==> *final(under) == *old(under),
{
}

/// Undo takes the last stroke back, and says whether there was one; clearing takes
/// all of them back.
pub proof fn law_undo_and_clearing_take_back<P: Physics>(p: P, one: &mut Sim<P::Real>, r: bool, all: &mut Sim<P::Real>)
    requires
        old(one).wf(),
        old(all).wf(),
        call_ensures(Sim::<P::Real>::undo_stroke::<P>, (one, &p), r),
        call_ensures(Sim::<P::Real>::clear_paint::<P>, (all, &p), ()),
    ensures
        r <==> old(one).strokes@.len() > 0,
        r ==> undone(p, *old(one), *final(one)) && final(one).strokes@.len() == old(one).strokes@.len() - 1,
        !r ==> *final(one) == *old(one),
        cleared(p, *old(all), *final(all)),
        final(all).strokes@.len() == 0,
{
    if r {
        let mid = choose|mid: Seq<P::Real>| #[trigger] undone_by(p, *old(one), *final(one), mid);
        assert(records(final(one).strokes@).len() == records(old(one).strokes@).len() - 1);
    }
}

/// Setting the temperature sets it, and nothing else.
pub proof fn law_the_temperature_is_set<R: Copy>(t: R, sim: &mut Sim<R>, device: &mut GpuSim<R>)
    requires
        call_ensures(Sim::<R>::set_temperature, (sim, t), ()),
        call_ensures(GpuSim::<R>::set_temperature, (device, t), ()),
    ensures
        *final(sim) == (Sim { params: Params { temperature: t, ..old(sim).params }, ..*old(sim) }),
        *final(device) == (GpuSim { params: Params { temperature: t, ..old(device).params }, ..*old(device) }),
{
}

/// Pausing pauses, and resuming ends it; neither changes anything else.
pub proof fn law_sessions_can_be_paused<R: Copy>(one: &mut SimHandle<R>, two: &mut SimHandle<R>)
    requires
        call_ensures(SimHandle::<R>::pause, (one,), ()),
        call_ensures(SimHandle::<R>::resume, (two,), ()),
        *old(two) == *final(one),
    ensures
        final(one).paused,
        !final(two).paused,
        !old(one).paused ==> *final(two) == *old(one),
        final(one).sim == old(one).sim && final(one).stroke == old(one).stroke && final(one).telem == old(one).telem,
{
}

/// What the operations of a session do to it.
pub proof fn law_sessions_do_as_they_are_told<P: Physics>(
    p: P,
    ticks: &mut SimHandle<P::Real>,
    iterations: i64,
    done: u64,
    clock: &mut SimHandle<P::Real>,
    seconds: P::Real,
    down: &mut SimHandle<P::Real>,
    brush: Brush<P::Real>,
    sign: P::Real,
    drag: &mut SimHandle<P::Real>,
    x: P::Real,
    y: P::Real,
    up: &mut SimHandle<P::Real>,
)
    requires
        old(ticks).wf(),
        old(up).wf(),
        call_ensures(SimHandle::<P::Real>::tick::<P>, (ticks, &p, iterations), done),
        call_ensures(SimHandle::<P::Real>::note_pace::<P>, (clock, &p, done, seconds), ()),
        call_ensures(SimHandle::<P::Real>::paint_begin::<P>, (down, &p, brush, sign), ()),
        call_ensures(SimHandle::<P::Real>::paint_stroke_point, (drag, x, y), ()),
        call_ensures(SimHandle::<P::Real>::paint_end::<P>, (up, &p), ()),
    ensures
        ticked(p, *old(ticks), iterations, *final(ticks), done),
        noted(p, *old(clock), done, seconds, *final(clock)),
        touched_down(p, *old(down), brush, sign, *final(down)),
        drawn_to(*old(drag), x, y, *final(drag)),
        lifted(p, *old(up), *final(up)),
{
}

/// Undo, clearing and presets change the gas of a session. The energy from which the
/// drop counts is that of the preset once one is loaded, and is kept by the others.
pub proof fn law_sessions_take_back_and_load<P: Physics>(
    p: P,
    one: &mut SimHandle<P::Real>,
    some: bool,
    all: &mut SimHandle<P::Real>,
    preset: &mut SimHandle<P::Real>,
    name: String,
    known: bool,
)
    requires
        old(one).wf(),
        old(all).wf(),
        old(preset).wf(),
        call_ensures(SimHandle::<P::Real>::undo::<P>, (one, &p), some),
        call_ensures(SimHandle::<P::Real>::clear_paint::<P>, (all, &p), ()),
        call_ensures(SimHandle::<P::Real>::load_preset::<P>, (preset, &p, &name), known),
    ensures
        some <==> old(one).sim.strokes@.len() > 0,
        some ==> undone(p, old(one).sim, final(one).sim),
        !some ==> *final(one) == *old(one),
        cleared(p, old(all).sim, final(all).sim),
        final(one).telem == old(one).telem && final(all).telem == old(all).telem,
        loaded(p, *old(preset), name@, *final(preset), known),
        known ==> final(preset).telem.baseline_energy == final(preset).sim.energy,
        !known ==> *final(preset) == *old(preset),
{
}

/// Entries that are loaded set the temperature to the last that names it, if all of
/// them are known and have a number, and nothing else; by its name alone, too, the
/// temperature is the one parameter that can be set.
pub proof fn law_entries_set_the_temperature<R: Copy>(
    alone: &mut Sim<R>,
    key: String,
    value: R,
    sim: &mut Sim<R>,
    entries: Vec<(String, Option<R>)>,
    ok: bool,
)
    requires
        call_ensures(apply_param::<R>, (alone, &key, value), ()),
        call_ensures(apply_params::<R>, (sim, &entries), ok),
    ensures
        key@ == "temperature"@ ==> *final(alone) == (Sim {
            params: Params { temperature: value, ..old(alone).params },
            ..*old(alone)
        }),
        key@ != "temperature"@ ==> *final(alone) == *old(alone),
        ok <==> all_known(entries@),
        !ok ==> *final(sim) == *old(sim),
        ok ==> *final(sim) == (Sim {
            params: Params { temperature: temperature_after(old(sim).params.temperature, entries@), ..old(sim).params },
            ..*old(sim)
        }),
{
}

/// Text that spells no object loads nothing, and neither does one with an entry that
/// is not known or has no number.
pub proof fn law_texts_load_all_or_nothing<R: Copy, F: Fn(&String) -> Option<R>>(sim: &mut Sim<R>, text: &str, number: F, ok: bool)
    requires
        call_ensures(load_params::<R, F>, (sim, text, &number), ok),
    ensures
        json_entries(text@) is None ==> !ok,
        !ok ==> *final(sim) == *old(sim),
        *final(sim) == (Sim {
            params: Params { temperature: final(sim).params.temperature, ..old(sim).params },
            ..*old(sim)
        }),
        ok ==> exists|entries: Seq<(String, Option<R>)>| #[trigger]
            values_read(number, json_entries(text@)->Some_0, entries) && all_known(entries) && final(sim).params.temperature
                == temperature_after(old(sim).params.temperature, entries),
{
}

/// A device run launches, sweep by sweep and colour by colour.
pub proof fn law_device_runs_launch<P: Physics>(
    p: P,
    start: &mut GpuSim<P::Real>,
    at: (i32, i32),
    open: &mut GpuSim<P::Real>,
    fresh: Sweep,
    sim: &mut GpuSim<P::Real>,
    colour: u32,
    oy: i32,
    ox: i32,
    temperature: P::Real,
    moves: u32,
    made: Option<Launch<P::Real>>,
    next: &mut GpuSim<P::Real>,
    sweep: &mut Sweep,
    r: Option<Launch<P::Real>>,
)
    requires
        old(start).wf(),
        old(open).wf(),
        old(sim).wf(),
        old(next).wf(),
        old(sweep).wf(*old(next)),
        colour < 4,
        0 <= oy < old(sim).tile_edge,
        0 <= ox < old(sim).tile_edge,
        call_ensures(GpuSim::<P::Real>::begin_sweep, (start,), at),
        call_ensures(GpuSim::<P::Real>::open_sweep, (open,), fresh),
        call_ensures(GpuSim::<P::Real>::launch::<P>, (sim, &p, colour, oy, ox, temperature, moves), made),
        call_ensures(GpuSim::<P::Real>::next_launch::<P>, (next, &p, sweep, temperature, moves), r),
    ensures
        at.0 == mcg_below(old(start).state, old(start).tile_edge as i32).0,
        0 <= at.0 < old(start).tile_edge && 0 <= at.1 < old(start).tile_edge,
        sweep_opens(*old(open), *final(open), fresh),
        made matches Some(l) ==> launched(p, *old(sim), *final(sim), colour as int, (oy, ox), temperature, moves, l),
        made is None <==> old(sim).tiles_of(colour as int, (oy, ox)) == 0,
        made is None ==> *final(sim) == *old(sim),
        goes_on(p, *old(next), *old(sweep), temperature, moves, *final(next), *final(sweep), r),
{
}

/// A device run keeps account of what its launches give back.
pub proof fn law_device_runs_keep_account<P: Physics>(
    p: P,
    sim: &mut GpuSim<P::Real>,
    acc: Vec<u32>,
    att: Vec<u32>,
    de: Vec<P::Real>,
    attempts: u64,
    run: &mut GpuSim<P::Real>,
    sweep: &mut Sweep,
    ok: bool,
    ended: &mut GpuSim<P::Real>,
    weighed: &mut GpuSim<P::Real>,
    occ: Vec<bool>,
    u_edge: Vec<P::Real>,
    e: P::Real,
)
    requires
        old(weighed).wf(),
        old(ended).iteration < u64::MAX,
        call_ensures(GpuSim::<P::Real>::take_in::<P>, (sim, &p, &acc, &att, &de), attempts),
        call_ensures(GpuSim::<P::Real>::take_in_counters::<P>, (run, &p, sweep, &acc, &att, &de), ok),
        call_ensures(GpuSim::<P::Real>::end_sweep, (ended,), ()),
        call_ensures(GpuSim::<P::Real>::recompute_energy::<P>, (weighed, &p, &occ, &u_edge), e),
    ensures
        taken_in(p, *old(sim), *final(sim), acc@, att@, de@),
        attempts == count_sum(att@),
        ok ==> taken_in(p, *old(run), *final(run), acc@, att@, de@) && final(sweep).attempts - old(sweep).attempts == count_sum(
            att@,
        ) && final(sweep).next == old(sweep).next && final(sweep).at() == old(sweep).at(),
        !ok ==> *final(run) == *old(run) && *final(sweep) == *old(sweep),
        old(run).accepted + count_sum(acc@) <= u64::MAX && old(run).attempted + count_sum(att@) <= u64::MAX && old(sweep).attempts
            + count_sum(att@) <= u64::MAX ==> ok,
        final(ended).iteration == old(ended).iteration + 1,
        final(ended).accepted == old(ended).accepted && final(ended).energy == old(ended).energy,
        weighed_afresh(p, *old(weighed), occ@, u_edge@, *final(weighed)),
        e == final(weighed).energy,
{
}

/// A surface is resized, and its frames are planned.
pub proof fn law_surfaces_are_resized_and_drawn(
    window: &mut SurfaceState,
    w: u32,
    h: u32,
    anew: bool,
    surface: &mut SurfaceState,
    lattice_w: u32,
    lattice_h: u32,
    len: usize,
    plan: FramePlan,
)
    requires
        lattice_w * lattice_h <= len,
        4 * (lattice_w * lattice_h) <= usize::MAX,
        call_ensures(SurfaceState::resize, (window, w, h), anew),
        call_ensures(SurfaceState::plan_frame, (surface, lattice_w, lattice_h, len), plan),
    ensures
        resized(*old(window), w, h, *final(window), anew),
        planned(*old(surface), lattice_w, lattice_h, *final(surface), plan),
{
}

/// A scenario is run chain by chain, and fails only where the cutoff or a stroke
/// reaches over more cells than the machine has room for.
pub proof fn law_scenarios_are_run<P: Physics>(
    p: P,
    sc: Scenario<P::Real>,
    chain: usize,
    one: Result<Chain<P::Real>, TooLarge>,
    all: Result<RunResult<P::Real>, TooLarge>,
)
    requires
        sc.wf(),
        chain < sc.chain_count(),
        call_ensures(run_chain::<P>, (&p, &sc, chain), one),
        call_ensures(run_scenario::<P>, (&p, &sc), all),
    ensures
        one matches Ok(c) ==> chained(p, sc, chain as int, c),
        all matches Ok(run) ==> measured(p, sc, run),
        one is Err || all is Err ==> cutoff_refused(p, sc) || stroke_refused(p, sc),
{
}

/// What is read off a gas or a device run is what it has.
pub proof fn law_what_is_read_off_is_there<R: Copy>(
    sim: Sim<R>,
    occ: &Vec<bool>,
    blocked: &Vec<bool>,
    u_edge: &Vec<R>,
    params: &Params<R>,
    device: GpuSim<R>,
    bytes: u64,
    edge: u32,
    energy: R,
    settings: &Params<R>,
)
    requires
        call_ensures(Sim::<R>::occupancy, (&sim,), occ),
        call_ensures(Sim::<R>::blocked, (&sim,), blocked),
        call_ensures(Sim::<R>::u_edge, (&sim,), u_edge),
        call_ensures(Sim::<R>::params, (&sim,), params),
        call_ensures(GpuSim::<R>::peak_gpu_bytes, (&device,), bytes),
        call_ensures(GpuSim::<R>::tile_edge, (&device,), edge),
        call_ensures(GpuSim::<R>::energy, (&device,), energy),
        call_ensures(GpuSim::<R>::params, (&device,), settings),
    ensures
        *occ == sim.occ && *blocked == sim.blocked && *u_edge == sim.u_edge && *params == sim.params,
        bytes == device.peak_bytes && edge == device.tile_edge && energy == device.energy && *settings == device.params,
{
}

/// A frame that is ready is presented, one of a surface that is outdated or lost has it
/// configured anew, and any other is dropped. Of offers the first that is liked is
/// taken, or the very first.
pub proof fn law_frames_are_dealt_with(status: FrameStatus, action: FrameAction, liked: Vec<bool>, i: usize, k: int)
    requires
        call_ensures(on_frame, (status,), action),
        call_ensures(first_liked, (&liked,), i),
        0 <= k < liked@.len(),
    ensures
        action == FrameAction::Present <==> status == FrameStatus::Ready,
        action == FrameAction::Drop <==> status == FrameStatus::Failed,
        liked@[k] ==> liked@[i as int] && i <= k,
        i < liked@.len() && (!liked@[i as int] ==> i == 0),
{
}

/// A scenario that can be run and paints nothing is run, on a lattice of ordinary
/// size.
pub proof fn law_ordinary_scenarios_are_run<P: Physics>(p: P, sc: Scenario<P::Real>, r: Result<RunResult<P::Real>, TooLarge>)
    requires
        sc.wf(),
        0 < sc.h <= 16384,
        0 < sc.w <= 16384,
        forall|rc: usize| #[trigger] reach_is(p, sc.cutoff, rc) ==> rc <= 1024,
        forall|i: int| 0 <= i < sc.stages@.len() ==> (#[trigger] sc.stages@[i]).strokes@.len() == 0,
        call_ensures(run_scenario::<P>, (&p, &sc), r),
    ensures
        r is Ok,
{
    if stroke_refused(p, sc) {
        let (s, i, j) = choose|s: Sim<P::Real>, i: int, j: int| #[trigger] refused_at(p, sc, s, i, j);
        assert(sc.stages@[i].strokes@.len() == 0);
    }
    if cutoff_refused(p, sc) {
        let rc = choose|rc: usize| #[trigger]
            reach_is(p, sc.cutoff, rc) && !field_fits(sc.h as int, sc.w as int, rc as int, sc.periodic);
        law_ordinary_lattices_have_room(sc.h as int, sc.w as int, rc as int, sc.periodic);
    }
}

/// A gas is set up as it is asked for: over lines, or blank.
pub proof fn law_gases_are_set_up<P: Physics>(
    p: P,
    params: Params<P::Real>,
    cov: Vec<P::Real>,
    occ0: Vec<bool>,
    line_density: P::Real,
    line_blocks: bool,
    particles: usize,
    lined: Sim<P::Real>,
    blank: Sim<P::Real>,
    handle: SimHandle<P::Real>,
)
    requires
        call_ensures(Sim::<P::Real>::new::<P>, (&p, params, cov, occ0, line_density, line_blocks), Some(lined)),
        call_ensures(Sim::<P::Real>::new_blank::<P>, (&p, params, particles), Some(blank)),
        call_ensures(SimHandle::<P::Real>::new::<P>, (&p, blank), handle),
    ensures
        set_up(p, params, cov@, occ0@, line_density, line_blocks, lined),
        set_up_blank(p, params, particles as int, blank),
        lined.wf() && blank.wf(),
        handle.sim == blank && handle.telem.baseline_energy == blank.energy && !handle.paused && handle.stroke is None,
{
}

/// A device run starts from the layers it is given, or from blank ones on which
/// particles are spread evenly and nothing is closed or charged.
pub proof fn law_device_runs_are_set_up<P: Physics>(
    p: P,
    n: Numbers<P::Real>,
    params: Params<P::Real>,
    occ: Vec<bool>,
    blocked: Vec<bool>,
    u_edge: Vec<P::Real>,
    particles: usize,
    from: (GpuSim<P::Real>, Upload<P::Real>),
    blank: (GpuSim<P::Real>, Upload<P::Real>),
    c: int,
)
    requires
        computes(p, n),
        call_ensures(GpuSim::<P::Real>::from_state::<P>, (&p, params, occ, blocked, u_edge), Some(from)),
        call_ensures(GpuSim::<P::Real>::new_blank::<P>, (&p, params, particles), Some(blank)),
        0 <= c < params.h * params.w,
    ensures
        starts_from(p, params, occ@, u_edge@, from.0),
        from.1.occ@ == occ@ && from.1.blocked@ == blocked@ && from.1.u_edge@ == u_edge@,
        starts_from(p, params, blank.1.occ@, blank.1.u_edge@, blank.0),
        blank.0.particles == (if particles < params.h * params.w {
            particles as int
        } else {
            params.h * params.w
        }),
        evenly_lit(blank.1.occ@, blank.0.particles as int),
        !blank.1.blocked@[c] && (n.val)(blank.1.u_edge@[c]) == 0 as real,
        from.0.wf() && blank.0.wf(),
{
    assert(call_ensures(P::zero, (&p,), blank.1.u_edge@[c]));
}

/// The energy by steps is that of the gas, pair by pair.
pub proof fn law_energy_by_steps_in_numbers<P: Physics>(
    p: P,
    n: Numbers<P::Real>,
    lay: Layout<P::Real>,
    occ: Vec<bool>,
    u_edge: Vec<P::Real>,
    off: OffsetTable<P::Real>,
    e: P::Real,
)
    requires
        sound(p, n.val, lay),
        narrowly_exact(p, n.val),
        table_fits(lay.rc as int),
        lay.occ == occ@,
        lay.u_edge == u_edge@,
        forall|rc: usize| #[trigger] reach_is(p, lay.params.cutoff, rc) ==> rc == lay.rc,
        call_ensures(build_offset_table::<P>, (&p, &lay.params), Some(off)),
        call_ensures(
            total_energy_from_offsets::<P>,
            (&p, &occ, &u_edge, &off, lay.params.h, lay.params.w, lay.params.periodic, lay.params.charge),
            e,
        ),
    ensures
        (n.val)(e) == energy(n.val, lay),
{
    law_energy_by_steps_is_that_of_the_pairs(p, n.val, lay, off@, e);
}

} // verus!

//! What a device is told of a run: it goes by the same lattice, weighs the gas as
//! the host does, and works on tiles that do not feel each other.

use crate::balance::sound;
use crate::exact::{energy, lemma_summed_exact, lemma_total_exact};
use crate::field::cutoff_fits;
use crate::formulas::{boltzmann, coldness_is, thermal, total_is};
use crate::gpu::{
    count_sum, device_bytes, goes_on, launched, mcg_below, starts_from, starts_from_by, sweep_opens, taken_in,
    weighed_afresh, GpuSim, Launch, Sweep,
};
use crate::kernel::{side, table_fits};
use crate::lattice::{count_lit, lemma_flat_inverse};
use crate::metropolis::lemma_turned_onto;
use crate::numbers::{
    computes, larger, law_odds_in_numbers, law_thermal_in_numbers, lemma_coldness, lemma_reach, whole, Numbers,
};
use crate::offsets::{edge_on_lit, energy_by_steps, lists, met_by_all, Steps};
use crate::parity::{law_energy_by_steps_is_that_of_the_pairs, lemma_sums_by_steps, narrowly_exact};
use crate::physics::{summed, Params, Physics, Stats};
use crate::sim::Layout;
use crate::tally::{lemma_tally_same, tally};
use crate::terms::reach_is;
use crate::tiling::{
    in_tile, law_all_tiles_have_room, law_tiles_of_a_colour_do_not_interact, line_distance, tile_count, tile_starts,
};
use vstd::prelude::*;

verus! {

/// Where a device that goes by `l` gets to from the cell `(y, x)` with a step, if
/// that is on the lattice.
pub open spec fn lands<R>(l: Launch<R>, y: int, x: int, dy: int, dx: int) -> Option<(int, int)> {
    if l.periodic != 0 {
        Some(((y + dy) % l.h as int, (x + dx) % l.w as int))
    } else if 0 <= y + dy < l.h && 0 <= x + dx < l.w {
        Some((y + dy, x + dx))
    } else {
        None
    }
}

/// A device is told the boundary of the run: on a torus its steps always lead to a
/// cell, which whole turns part from where they point; between walls they lead
/// nowhere else than where they point, and nowhere outside.
pub proof fn law_launches_keep_to_the_boundary<P: Physics>(
    p: P,
    before: GpuSim<P::Real>,
    after: GpuSim<P::Real>,
    colour: int,
    at: (i32, i32),
    temperature: P::Real,
    moves: u32,
    l: Launch<P::Real>,
    y: int,
    x: int,
    dy: int,
    dx: int,
)
    requires
        launched(p, before, after, colour, at, temperature, moves, l),
        before.wf(),
    ensures
        l.periodic != 0 <==> before.params.periodic,
        ({
            let (h, w) = (before.params.h as int, before.params.w as int);
            match lands(l, y, x, dy, dx) {
                Some((v, u)) => {
                    &&& 0 <= v < h && 0 <= u < w
                    &&& before.params.periodic ==> (v - y - dy) % h == 0 && (u - x - dx) % w == 0
                    &&& !before.params.periodic ==> v == y + dy && u == x + dx
                },
                None => !before.params.periodic && !(0 <= y + dy < h && 0 <= x + dx < w),
            }
        }),
{
    let (h, w) = (before.params.h as int, before.params.w as int);
    if before.params.periodic {
        let (rows, columns) = (before.rows_of(colour, at.0 as int), before.columns_of(colour, at.1 as int));
        assert(rows.len() > 0 && columns.len() > 0) by (nonlinear_arith)
            requires
                rows.len() * columns.len() > 0,
        ;
        assert(h > 0 && w > 0) by {
            if h == 0 {
                assert(tile_count(h, before.tile_edge as int, true, at.0 as int, colour % 2) == 0);
            }
            if w == 0 {
                assert(tile_count(w, before.tile_edge as int, true, at.1 as int, colour / 2) == 0);
            }
        }
        lemma_turned_onto(y + dy, h);
        lemma_turned_onto(x + dx, w);
    }
}

/// A device that goes by a launch weighs a gas as the host does: the energy by its
/// steps, on its lattice and with its charge, is that of the pairs on the host.
pub proof fn law_launches_weigh_the_gas_as_the_host_does<P: Physics>(
    p: P,
    n: Numbers<P::Real>,
    before: GpuSim<P::Real>,
    after: GpuSim<P::Real>,
    colour: int,
    at: (i32, i32),
    temperature: P::Real,
    moves: u32,
    l: Launch<P::Real>,
    lay: Layout<P::Real>,
    steps: Steps<P::Real>,
    e: P::Real,
)
    requires
        launched(p, before, after, colour, at, temperature, moves, l),
        sound(p, n.val, lay),
        narrowly_exact(p, n.val),
        lay.params == before.params,
        lay.rc == before.rc,
        table_fits(lay.rc as int),
        lists(p, lay.params, l.rc as int, (side(l.rc as int) * side(l.rc as int)) as nat, steps),
        energy_by_steps(p, lay.occ, lay.u_edge, steps, l.h as int, l.w as int, l.periodic != 0, l.q, e),
    ensures
        (n.val)(e) == energy(n.val, lay),
{
    let (h, w, periodic) = (lay.params.h as int, lay.params.w as int, lay.params.periodic);
    let (e_mm, e_edge) = choose|e_mm: P::Real, e_edge: P::Real|
        summed(p, met_by_all(steps, lay.occ, h, w, periodic, lay.occ.len()), e_mm) && summed(
            p,
            edge_on_lit(lay.occ, lay.u_edge, lay.occ.len()),
            e_edge,
        ) && #[trigger] total_is(p, l.q, e_mm, e_edge, e);
    lemma_total_exact(p, n.val, l.q, e_mm, e_edge, e);
    lemma_sums_by_steps(p, n.val, lay, steps, e_mm, e_edge);
}

/// A device goes by the charge of the particles and by the temperature: its odds of
/// a move, the exponential of what it costs times `beta`, the sign turned round, are
/// those on the host.
pub proof fn law_launches_have_the_odds_of_the_host<P: Physics>(
    p: P,
    n: Numbers<P::Real>,
    before: GpuSim<P::Real>,
    after: GpuSim<P::Real>,
    colour: int,
    at: (i32, i32),
    temperature: P::Real,
    moves: u32,
    l: Launch<P::Real>,
    de: P::Real,
    kt: P::Real,
    odds: P::Real,
)
    requires
        computes(p, n),
        narrowly_exact(p, n.val),
        launched(p, before, after, colour, at, temperature, moves, l),
        call_ensures(thermal::<P>, (&p, temperature), kt),
        call_ensures(boltzmann::<P>, (&p, de, kt), odds),
    ensures
        (n.val)(l.q) == (n.val)(before.params.charge),
        (n.val)(l.beta) * (n.kb * larger((n.val)(temperature), n.least)) == 1 as real,
        (n.val)(odds) == (n.exp)(-((n.val)(l.beta) * (n.val)(de))),
{
    let beta = choose|beta: P::Real| #[trigger]
        coldness_is(p, temperature, beta) && call_ensures(P::narrow, (&p, beta), l.beta);
    lemma_coldness(p, n, temperature, beta);
    law_thermal_in_numbers(p, n, temperature, kt);
    law_odds_in_numbers(p, n, de, kt, odds);
    let (b, k, e) = ((n.val)(l.beta), (n.val)(kt), (n.val)(de));
    assert((-e) / k == -(b * e)) by (nonlinear_arith)
        requires
            b * k == 1 as real,
            k > 0 as real,
    ;
}

/// A launch has the lattice, the hops and the cutoff of the run, tiles whose edge is
/// longer than that cutoff, and a seed that is not nothing. Every launch that draws a
/// seed moves the generator on, and changes nothing else.
pub proof fn law_launches_are_of_the_run<P: Physics>(
    p: P,
    before: GpuSim<P::Real>,
    after: GpuSim<P::Real>,
    colour: int,
    at: (i32, i32),
    temperature: P::Real,
    moves: u32,
    l: Launch<P::Real>,
)
    requires
        launched(p, before, after, colour, at, temperature, moves, l),
        before.wf(),
        0 <= colour < 4,
        0 <= at.0 < before.tile_edge,
        0 <= at.1 < before.tile_edge,
    ensures
        l.h == before.params.h && l.w == before.params.w,
        l.hop == before.params.step_size,
        l.rc == before.rc < l.l_edge == before.tile_edge,
        l.noff == before.noff,
        l.moves == moves,
        l.seed != 0,
        0 < l.ntiles <= before.max_tiles,
        l.tile_y@.len() == l.ntiles == l.tile_x@.len(),
        after == (GpuSim { state: after.state, ..before }),
{
    law_all_tiles_have_room(
        before.params.h as int,
        before.params.w as int,
        before.tile_edge as int,
        before.params.periodic,
        colour,
        at.0 as int,
        at.1 as int,
    );
}

/// The cell `(y, x)` lies in tile `k` of a launch.
pub open spec fn in_launched_tile<R>(l: Launch<R>, k: int, y: int, x: int) -> bool {
    &&& in_tile(y, l.tile_y@[k] as int, l.l_edge as int, l.h as int, l.periodic != 0)
    &&& in_tile(x, l.tile_x@[k] as int, l.l_edge as int, l.w as int, l.periodic != 0)
}

/// The tiles of a launch can be worked on at once: cells of two of them are, along
/// one of the axes, further apart than the cutoff.
pub proof fn law_launched_tiles_do_not_interact<P: Physics>(
    p: P,
    before: GpuSim<P::Real>,
    after: GpuSim<P::Real>,
    colour: int,
    at: (i32, i32),
    temperature: P::Real,
    moves: u32,
    l: Launch<P::Real>,
    k: int,
    m: int,
    a: (int, int),
    b: (int, int),
)
    requires
        launched(p, before, after, colour, at, temperature, moves, l),
        before.wf(),
        0 <= k < l.ntiles,
        0 <= m < l.ntiles,
        k != m,
        in_launched_tile(l, k, a.0, a.1),
        in_launched_tile(l, m, b.0, b.1),
    ensures
        line_distance(a.0, b.0, l.h as int, l.periodic != 0) > l.rc || line_distance(a.1, b.1, l.w as int, l.periodic != 0) > l.rc,
{
    let (h, w, edge, periodic) = (before.params.h as int, before.params.w as int, before.tile_edge as int, before.params.periodic);
    let (ys, xs) = (before.rows_of(colour, at.0 as int), before.columns_of(colour, at.1 as int));
    let c = xs.len() as int;
    lemma_flat_inverse(ys.len() as int, c, k);
    lemma_flat_inverse(ys.len() as int, c, m);
    assert(l.tile_y@[k] == ys[k / c] && l.tile_x@[k] == xs[k % c]);
    assert(l.tile_y@[m] == ys[m / c] && l.tile_x@[m] == xs[m % c]);
    law_tiles_of_a_colour_do_not_interact(
        h,
        w,
        edge,
        periodic,
        colour,
        at.0 as int,
        at.1 as int,
        before.rc as int,
        k / c,
        k % c,
        m / c,
        m % c,
        a,
        b,
    );
}

/// The counters of a launch are added to those of the run, tile by tile.
pub proof fn law_counters_are_added_up<P: Physics>(
    p: P,
    n: Numbers<P::Real>,
    before: GpuSim<P::Real>,
    after: GpuSim<P::Real>,
    acc: Seq<u32>,
    att: Seq<u32>,
    de: Seq<P::Real>,
)
    requires
        computes(p, n),
        taken_in(p, before, after, acc, att, de),
    ensures
        whole(after.accepted - before.accepted) == tally(acc.len() as int, |i: int| whole(acc[i] as int)),
        whole(after.attempted - before.attempted) == tally(att.len() as int, |i: int| whole(att[i] as int)),
        (n.val)(after.energy) == (n.val)(before.energy) + tally(de.len() as int, |i: int| (n.val)(de[i])),
{
    lemma_count_sum_as_tally(acc);
    lemma_count_sum_as_tally(att);
    let sum = choose|sum: P::Real| #[trigger] call_ensures(P::plus, (&p, before.energy, sum), after.energy) && summed(p, de, sum);
    lemma_summed_exact(p, n.val, de, sum);
}

proof fn lemma_count_sum_as_tally(counts: Seq<u32>)
    ensures
        whole(count_sum(counts)) == tally(counts.len() as int, |i: int| whole(counts[i] as int)),
    decreases counts.len(),
{
    if counts.len() > 0 {
        let less = counts.drop_last();
        lemma_count_sum_as_tally(less);
        lemma_tally_same(less.len() as int, |i: int| whole(less[i] as int), |i: int| whole(counts[i] as int));
    }
}

/// A run keeps on the device sixteen bytes for a cell, twelve for a step, thirty-two
/// for a tile that there is room for, and sixty-four besides. Its tiles are sixteen
/// cells wide, or one more than the cutoff reaches if that is more.
pub proof fn law_a_device_run_takes_its_room<P: Physics>(
    p: P,
    n: Numbers<P::Real>,
    params: Params<P::Real>,
    occ: Seq<bool>,
    u_edge: Seq<P::Real>,
    sim: GpuSim<P::Real>,
)
    requires
        computes(p, n),
        cutoff_fits(n, params.cutoff),
        starts_from(p, params, occ, u_edge, sim),
    ensures
        sim.peak_bytes == 16 * (params.h * params.w) + 12 * sim.noff + 32 * sim.max_tiles + 64,
        sim.tile_edge == 16 || sim.tile_edge == sim.rc + 1,
        sim.tile_edge >= 16 && sim.tile_edge > sim.rc,
        (n.val)(params.cutoff) <= whole(sim.rc as int),
        sim.rc > 1 ==> whole(sim.rc - 1) < (n.val)(params.cutoff),
        sim.params == params,
        sim.accepted == 0 && sim.attempted == 0 && sim.iteration == 0,
{
    let (rc, steps) = choose|rc: usize, steps: Steps<P::Real>| #[trigger]
        starts_from_by(p, params, occ, u_edge, sim, rc, steps);
    lemma_reach(p, n, params.cutoff, rc);
    let cells = params.h * params.w;
    assert(sim.peak_bytes == device_bytes(cells, sim.noff as int, sim.max_tiles as int));
}

/// A sweep draws how far its tiles are shifted down, then how far to the right, and
/// goes on from there.
pub proof fn law_sweeps_draw_rows_first<R>(sim: GpuSim<R>, state: u128)
    ensures
        ({
            let (at, on) = sim.origin(state);
            let down = mcg_below(state, sim.tile_edge as i32);
            let right = mcg_below(down.1, sim.tile_edge as i32);
            at.0 == down.0 && at.1 == right.0 && on == right.1
        }),
{
}

/// The four colours of a sweep are those of two by two tiles: odd colours have the
/// odd rows of tiles, and the last two the odd columns.
pub proof fn law_colours_are_those_of_two_by_two_tiles<R>(sim: GpuSim<R>, colour: int, at: (i32, i32))
    requires
        0 <= colour < 4,
    ensures
        sim.rows_of(colour, at.0 as int) == tile_starts(
            sim.params.h as int,
            sim.tile_edge as int,
            sim.params.periodic,
            at.0 as int,
            if colour == 1 || colour == 3 {
                1
            } else {
                0
            },
        ),
        sim.columns_of(colour, at.1 as int) == tile_starts(
            sim.params.w as int,
            sim.tile_edge as int,
            sim.params.periodic,
            at.1 as int,
            if colour >= 2 {
                1
            } else {
                0
            },
        ),
{
}

/// A device run starts with the energy of its gas, and has it again whenever it is
/// worked out afresh from layers that were read back.
pub proof fn law_device_runs_have_the_energy_of_their_gas<P: Physics>(
    p: P,
    n: Numbers<P::Real>,
    before: GpuSim<P::Real>,
    after: GpuSim<P::Real>,
    lay: Layout<P::Real>,
)
    requires
        sound(p, n.val, lay),
        narrowly_exact(p, n.val),
        table_fits(lay.rc as int),
        forall|rc: usize| #[trigger] reach_is(p, lay.params.cutoff, rc) ==> rc == lay.rc,
        starts_from(p, lay.params, lay.occ, lay.u_edge, after) || before.params == lay.params && before.rc == lay.rc && weighed_afresh(
            p,
            before,
            lay.occ,
            lay.u_edge,
            after,
        ),
    ensures
        (n.val)(after.energy) == energy(n.val, lay),
        after.particles == count_lit(lay.occ) || count_lit(lay.occ) > usize::MAX,
        after.params == lay.params,
{
    if starts_from(p, lay.params, lay.occ, lay.u_edge, after) {
        let (rc, steps) = choose|rc: usize, steps: Steps<P::Real>| #[trigger]
            starts_from_by(p, lay.params, lay.occ, lay.u_edge, after, rc, steps);
        law_energy_by_steps_is_that_of_the_pairs(p, n.val, lay, steps, after.energy);
    } else {
        let rc = lay.rc as int;
        let steps = choose|steps: Steps<P::Real>| #[trigger]
            lists(p, lay.params, rc, (side(rc) * side(rc)) as nat, steps) && energy_by_steps(
                p,
                lay.occ,
                lay.u_edge,
                steps,
                lay.params.h as int,
                lay.params.w as int,
                lay.params.periodic,
                lay.params.charge,
                after.energy,
            );
        law_energy_by_steps_is_that_of_the_pairs(p, n.val, lay, steps, after.energy);
    }
}

/// There is one sweep at least, and then there are sweeps until as many moves were
/// attempted as are asked for.
pub proof fn law_sweeps_go_on_until_enough_was_attempted<R: Copy>(done: u64, target: u64, due: bool)
    requires
        call_ensures(GpuSim::<R>::sweep_is_due, (done, target), due),
    ensures
        done == 0 ==> due,
        done > 0 ==> (due <==> done < target),
{
}

/// Every attempted move of a device run counts as a proposal.
pub proof fn law_device_stats_are_those_of_the_run<R: Copy>(sim: GpuSim<R>, s: Stats<R>)
    requires
        call_ensures(GpuSim::<R>::stats, (&sim,), s),
    ensures
        s.iteration == sim.iteration && s.proposed == sim.attempted && s.accepted == sim.accepted,
        s.dead_proposals == 0 && s.fail_streak == 0,
        s.particles == sim.particles,
        s.energy == sim.energy && s.temperature == sim.params.temperature,
{
}

/// A sweep starts with the first of the four colours.
pub proof fn law_sweeps_start_with_the_first_colour<R>(before: GpuSim<R>, after: GpuSim<R>, sweep: Sweep)
    requires
        sweep_opens(before, after, sweep),
    ensures
        sweep.next == 0 && sweep.attempts == 0,
        sweep.oy == mcg_below(before.state, before.tile_edge as i32).0,
        after == (GpuSim { state: after.state, ..before }),
{
}

/// No colour that has tiles is passed over: the next launch is for the first of those
/// whose turn has not come yet, up to the fourth, and none is left once there is none.
pub proof fn law_sweeps_launch_every_colour<P: Physics>(
    p: P,
    before: GpuSim<P::Real>,
    sweep: Sweep,
    temperature: P::Real,
    moves: u32,
    after: GpuSim<P::Real>,
    left: Sweep,
    r: Option<Launch<P::Real>>,
    colour: int,
)
    requires
        goes_on(p, before, sweep, temperature, moves, after, left, r),
        sweep.wf(before),
        left.wf(after),
        sweep.next <= colour < 4,
        before.tiles_of(colour, sweep.at()) > 0,
    ensures
        r is Some,
        sweep.next < left.next <= colour + 1,
        launched(p, before, after, left.next - 1, sweep.at(), temperature, moves, r->Some_0),
        left.at() == sweep.at() && left.attempts == sweep.attempts,
{
    if r is None || left.next > colour + 1 {
        assert(before.tiles_of(colour, sweep.at()) == 0);
    }
}

} // verus!

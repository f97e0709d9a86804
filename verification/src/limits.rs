//! What the machine has room for in any case.

use crate::convolve::{ceil_pow2, field_fits, lemma_ceil_pow2, padded, pow2_from};
use crate::gpu::{device_bytes, device_fits, has_no_room, GpuSim, Upload};
use crate::kernel::{ring, side, table_fits};
use crate::offsets::{felt_at, lists, Steps};
use crate::paint::cast_fits;
use crate::physics::{Params, Physics};
use crate::scenario::{lemma_iterations_grow, Scenario};
use crate::session::{session_params, SimHandle};
use crate::sim::Sim;
use crate::stroke::{Extent, StrokePatch};
use crate::terms::{beyond_is, reach_is};
use crate::tiling::{choose_tile_edge, tile_budget};
use vstd::prelude::*;

verus! {

proof fn lemma_product(a: int, b: int, m: int, n: int)
    requires
        0 <= a <= m,
        0 <= b <= n,
    ensures
        0 <= a * b <= m * n,
{
    assert(0 <= a * b <= m * n) by (nonlinear_arith)
        requires
            0 <= a <= m,
            0 <= b <= n,
    ;
}

/// A lattice of up to sixteen thousand lines each way, with a cutoff of up to a
/// thousand cells, always has room.
pub proof fn law_ordinary_lattices_have_room(h: int, w: int, rc: int, periodic: bool)
    requires
        0 < h <= 16384,
        0 < w <= 16384,
        0 <= rc <= 1024,
    ensures
        table_fits(rc),
        field_fits(h, w, rc, periodic),
{
    lemma_product(side(rc), side(rc), 2049, 2049);
    lemma_product(padded(h, rc, periodic), padded(w, rc, periodic), 20000, 20000);
}

/// So has a device for a run on such a lattice.
pub proof fn law_ordinary_device_runs_have_room<R>(params: Params<R>, rc: int, steps: int)
    requires
        0 < params.h <= 16384,
        0 < params.w <= 16384,
        0 <= rc <= 1024,
        0 <= steps <= (2 * rc + 1) * (2 * rc + 1),
    ensures
        device_fits(params, rc, steps),
{
    let (h, w) = (params.h as int, params.w as int);
    let edge = if rc + 1 > 16 {
        rc + 1
    } else {
        16
    };
    let (ny, nx) = ((h + 2 * edge - 1) / (2 * edge) + 1, (w + 2 * edge - 1) / (2 * edge) + 1);
    lemma_product(side(rc), side(rc), 2049, 2049);
    assert(0 <= (h + 2 * edge - 1) / (2 * edge) <= h + 2 * edge - 1) by {
        vstd::arithmetic::div_mod::lemma_div_pos_is_pos(h + 2 * edge - 1, 2 * edge);
        vstd::arithmetic::div_mod::lemma_div_is_ordered_by_denominator(h + 2 * edge - 1, 1, 2 * edge);
    }
    assert(0 <= (w + 2 * edge - 1) / (2 * edge) <= w + 2 * edge - 1) by {
        vstd::arithmetic::div_mod::lemma_div_pos_is_pos(w + 2 * edge - 1, 2 * edge);
        vstd::arithmetic::div_mod::lemma_div_is_ordered_by_denominator(w + 2 * edge - 1, 1, 2 * edge);
    }
    lemma_product(ny, nx, 20000, 20000);
    lemma_product(h, w, 16384, 16384);
    let tiles = tile_budget(h, w, edge);
    assert(tiles == ny * nx);
    assert(device_bytes(h * w, steps, tiles) <= u64::MAX);
}

/// Strokes within such a lattice, or not far from it, and the potential that they
/// cast, always have room.
pub proof fn law_ordinary_strokes_have_room<R>(e: Extent, patch: StrokePatch<R>, rp: int)
    requires
        -16384 <= e.top <= e.bottom <= 32768,
        -16384 <= e.left <= e.right <= 32768,
        0 <= e.pad <= 1024,
        0 < patch.ph <= 4096,
        0 < patch.pw <= 4096,
        -65536 <= patch.y0 <= 65536,
        -65536 <= patch.x0 <= 65536,
        0 <= rp <= 1024,
    ensures
        e.fits(),
        cast_fits(patch, rp),
{
    lemma_product(e.height(), e.width(), 60000, 60000);
    lemma_product(side(rp), side(rp), 2049, 2049);
    let (a, b) = (patch.ph + side(rp) - 1, patch.pw + side(rp) - 1);
    lemma_ceil_pow2(a);
    lemma_ceil_pow2(b);
    lemma_product(ceil_pow2(a), ceil_pow2(b), 16384, 16384);
}

/// A scenario on a lattice of such a size, with a million chains at most that run for
/// two thousand million iterations at most, can be run if every stage that anneals
/// takes samples.
pub proof fn law_ordinary_scenarios_can_be_run<R: Copy>(sc: Scenario<R>, r: bool)
    requires
        sc.h <= 16384,
        sc.w <= 16384,
        0 <= sc.step_size <= 16384,
        sc.chains <= 1_000_000,
        sc.iterations_to(sc.stages@.len() as int) <= 2_000_000_000,
        forall|i: int|
            0 <= i < sc.stages@.len() && (#[trigger] sc.stages@[i]).iterations > 0 ==> sc.stages@[i].energy_sample_every > 0,
        call_ensures(Scenario::<R>::can_be_run, (&sc,), r),
    ensures
        sc.wf(),
        r,
{
    lemma_product(sc.h as int, sc.w as int, 16384, 16384);
    lemma_iterations_grow(sc, 0, sc.stages@.len() as int);
    lemma_product(sc.chain_count(), sc.iterations_to(sc.stages@.len() as int), 1_000_000, 2_000_000_000);
}

/// A gas on a lattice of such a size, with a cutoff that reaches so far, is never
/// refused.
pub proof fn law_ordinary_gases_are_not_refused<P: Physics>(
    p: P,
    params: Params<P::Real>,
    cov: Vec<P::Real>,
    occ0: Vec<bool>,
    line_density: P::Real,
    line_blocks: bool,
    particles: usize,
    lined: Option<Sim<P::Real>>,
    blank: Option<Sim<P::Real>>,
)
    requires
        0 < params.h <= 16384,
        0 < params.w <= 16384,
        forall|rc: usize| #[trigger] reach_is(p, params.cutoff, rc) ==> rc <= 1024,
        call_ensures(Sim::<P::Real>::new::<P>, (&p, params, cov, occ0, line_density, line_blocks), lined),
        call_ensures(Sim::<P::Real>::new_blank::<P>, (&p, params, particles), blank),
    ensures
        lined is Some && blank is Some,
{
    assert forall|rc: usize| #[trigger] reach_is(p, params.cutoff, rc) implies field_fits(
        params.h as int,
        params.w as int,
        rc as int,
        params.periodic,
    ) by {
        law_ordinary_lattices_have_room(params.h as int, params.w as int, rc as int, params.periodic);
    }
}

/// Nor is a session on such a lattice.
pub proof fn law_ordinary_sessions_are_not_refused<P: Physics>(
    p: P,
    h: i64,
    w: i64,
    seed: i64,
    particles: i64,
    defaults: Params<P::Real>,
    r: Option<SimHandle<P::Real>>,
)
    requires
        0 < h <= 16384,
        0 < w <= 16384,
        0 <= particles,
        0 <= defaults.step_size <= 16384,
        forall|rc: usize| #[trigger] reach_is(p, defaults.cutoff, rc) ==> rc <= 1024,
        call_ensures(SimHandle::<P::Real>::create::<P>, (&p, h, w, seed, particles, defaults), r),
    ensures
        r is Some,
{
    let params = session_params(h, w, seed, defaults);
    lemma_product(h as int, w as int, 16384, 16384);
    assert(params.h == h && params.w == w);
    assert forall|rc: usize| #[trigger] reach_is(p, params.cutoff, rc) implies field_fits(
        params.h as int,
        params.w as int,
        rc as int,
        params.periodic,
    ) by {
        law_ordinary_lattices_have_room(params.h as int, params.w as int, rc as int, params.periodic);
    }
}

/// Nor is a device run.
pub proof fn law_ordinary_device_runs_are_not_refused<P: Physics>(
    p: P,
    params: Params<P::Real>,
    occ: Vec<bool>,
    blocked: Vec<bool>,
    u_edge: Vec<P::Real>,
    particles: usize,
    from: Option<(GpuSim<P::Real>, Upload<P::Real>)>,
    blank: Option<(GpuSim<P::Real>, Upload<P::Real>)>,
)
    requires
        0 < params.h <= 16384,
        0 < params.w <= 16384,
        forall|rc: usize| #[trigger] reach_is(p, params.cutoff, rc) ==> rc <= 1024,
        call_ensures(GpuSim::<P::Real>::from_state::<P>, (&p, params, occ, blocked, u_edge), from),
        call_ensures(GpuSim::<P::Real>::new_blank::<P>, (&p, params, particles), blank),
    ensures
        from is Some && blank is Some,
{
    if has_no_room(p, params) {
        let rc = choose|rc: usize| #[trigger]
            reach_is(p, params.cutoff, rc) && (!table_fits(rc as int) || exists|steps: Steps<P::Real>| #[trigger]
                lists(p, params, rc as int, (side(rc as int) * side(rc as int)) as nat, steps) && !device_fits(
                    params,
                    rc as int,
                    steps.v.len() as int,
                ));
        let c = rc as int;
        law_ordinary_lattices_have_room(params.h as int, params.w as int, c, params.periodic);
        let steps = choose|steps: Steps<P::Real>| #[trigger]
            lists(p, params, c, (side(c) * side(c)) as nat, steps) && !device_fits(params, c, steps.v.len() as int);
        lemma_product(side(c), side(c), 2049, 2049);
        lemma_no_more_steps_than_cells(p, params, c, (side(c) * side(c)) as nat, steps);
        law_ordinary_device_runs_have_room(params, c, steps.v.len() as int);
    }
}

proof fn lemma_no_more_steps_than_cells<P: Physics>(p: P, params: Params<P::Real>, rc: int, n: nat, steps: Steps<P::Real>)
    requires
        lists(p, params, rc, n, steps),
    ensures
        steps.v.len() <= n,
    decreases n,
{
    if n > 0 {
        let (i, j) = ((n - 1) / side(rc), (n - 1) % side(rc));
        let r2 = ring(rc, i, j);
        if r2 == 0 {
            lemma_no_more_steps_than_cells(p, params, rc, (n - 1) as nat, steps);
        } else {
            let far = choose|far: bool| #[trigger]
                beyond_is(p, r2 as i64, params.cutoff, far) && if far {
                    lists(p, params, rc, (n - 1) as nat, steps)
                } else {
                    exists|less: Steps<P::Real>, v: P::Real| #[trigger]
                        less.and(i - rc, j - rc, v) == steps && felt_at(p, params, r2, v) && lists(
                            p,
                            params,
                            rc,
                            (n - 1) as nat,
                            less,
                        )
                };
            if far {
                lemma_no_more_steps_than_cells(p, params, rc, (n - 1) as nat, steps);
            } else {
                let (less, v) = choose|less: Steps<P::Real>, v: P::Real| #[trigger]
                    less.and(i - rc, j - rc, v) == steps && felt_at(p, params, r2, v) && lists(
                        p,
                        params,
                        rc,
                        (n - 1) as nat,
                        less,
                    );
                lemma_no_more_steps_than_cells(p, params, rc, (n - 1) as nat, less);
            }
        }
    }
}

/// Tiles are wider than the cutoff, sixteen cells wide at least, and no wider than
/// that takes.
pub proof fn law_tiles_are_wide_enough(rc: u32, edge: u32)
    requires
        rc < u32::MAX,
        call_ensures(choose_tile_edge, (rc,), edge),
    ensures
        edge > rc && edge >= 16,
        edge == 16 || edge == rc + 1,
{
}

/// The least power of two that is not less than a number is one, or half of it is
/// less.
pub proof fn law_powers_of_two_are_the_next(n: usize, r: Option<usize>)
    requires
        call_ensures(pow2_from, (n,), r),
    ensures
        r matches Some(q) ==> n <= q && (q == 1 || q < 2 * n),
        r is None ==> 2 * n > usize::MAX,
{
    lemma_ceil_pow2(n as int);
}

} // verus!

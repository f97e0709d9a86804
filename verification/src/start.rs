//! How a gas starts out, in real numbers.

use crate::exact::{exact, has_room};
use crate::field::{cell_distances, cutoff_fits, law_lines_cast_their_repulsion};
use crate::gpu::{starts_from, GpuSim, Upload};
use crate::lattice::{count_lit, flat, lemma_flat_bound};
use crate::numbers::{computes, potential_at, Numbers};
use crate::parity::narrowly_exact;
use crate::physics::{Params, Physics};
use crate::scene::{evenly_lit, lemma_lit_sites, set_up, set_up_blank, strided};
use crate::sim::Sim;
use crate::tally::tally;
use crate::terms::{reach_is, solid_is};
use vstd::prelude::*;

verus! {

/// A gas is set up over its drawing. Lines that close cells close those that they
/// cover by more than half, and lines that do not, none. A particle is put on every
/// cell that asks for one and is open. There is no paint, nothing is counted yet, and
/// the batch has its full size, which is not below its least.
pub proof fn law_a_gas_is_set_up_over_its_drawing<P: Physics>(
    p: P,
    n: Numbers<P::Real>,
    params: Params<P::Real>,
    cov: Seq<P::Real>,
    occ0: Seq<bool>,
    line_density: P::Real,
    line_blocks: bool,
    sim: Sim<P::Real>,
    c: int,
)
    requires
        computes(p, n),
        set_up(p, params, cov, occ0, line_density, line_blocks, sim),
        0 <= c < params.h * params.w,
    ensures
        sim.blocked@[c] <==> line_blocks && (n.val)(cov[c]) + (n.val)(cov[c]) > 1 as real,
        sim.line_blocked@[c] == sim.blocked@[c] && !sim.paint_blocked@[c],
        sim.occ@[c] <==> occ0[c] && !sim.blocked@[c],
        (n.val)(sim.paint@[c]) == 0 as real,
        sim.strokes@.len() == 0,
        sim.iteration == 0 && sim.proposed == 0 && sim.accepted == 0 && sim.dead_proposals == 0 && sim.fail_streak == 0,
        sim.live_batch == params.batch || sim.live_batch == params.batch_min,
        sim.live_batch >= params.batch && sim.live_batch >= params.batch_min,
        sim.stream.seed == params.seed && sim.stream.position == 0,
        sim.params == params,
{
    if line_blocks {
        assert(solid_is(p, cov[c], sim.line_blocked@[c]));
    }
    assert(sim.occ@[c] == (occ0[c] && !sim.blocked@[c]));
    assert(call_ensures(P::zero, (&p,), sim.paint@[c]));
}

/// The particles are listed row by row, and from left to right in a row.
pub proof fn law_particles_are_listed_in_order<P: Physics>(
    p: P,
    params: Params<P::Real>,
    cov: Seq<P::Real>,
    occ0: Seq<bool>,
    line_density: P::Real,
    line_blocks: bool,
    sim: Sim<P::Real>,
    i: int,
    j: int,
)
    requires
        set_up(p, params, cov, occ0, line_density, line_blocks, sim),
        sim.wf(),
        0 <= i < j < sim.pos@.len(),
    ensures
        ({
            let (s, t) = (sim.pos@[i], sim.pos@[j]);
            s.0 < t.0 || s.0 == t.0 && s.1 < t.1
        }),
{
    let b = sim.layout().board();
    lemma_lit_sites(b, b.occ.len());
    let (s, t) = (sim.pos@[i], sim.pos@[j]);
    let w = b.w;
    assert(b.on_board(s) && b.on_board(t));
    assert(b.at(s) < b.at(t));
    if s.0 > t.0 {
        let (y, v) = (s.0 as int, t.0 as int);
        assert(y * w >= v * w + w) by (nonlinear_arith)
            requires
                y >= v + 1,
                w >= 0,
        ;
    }
}

/// One cell more: the next particle stands there, or none.
proof fn lemma_next_stride(take: int, total: int, m: int, c: int)
    requires
        0 <= take <= total,
        0 <= m < total,
        (c - 1) * total < m * take <= c * total,
    ensures
        (exists|k: int| 0 <= k < take && #[trigger] strided(k, take, total) == m) ==> c * total < (m + 1) * take <= (c + 1) * total,
        !(exists|k: int| 0 <= k < take && #[trigger] strided(k, take, total) == m) ==> (c - 1) * total < (m + 1) * take <= c
            * total,
{
    assert((m + 1) * take == m * take + take) by (nonlinear_arith);
    assert((c + 1) * total == c * total + total && (c - 1) * total == c * total - total) by (nonlinear_arith);
    if exists|k: int| 0 <= k < take && #[trigger] strided(k, take, total) == m {
        let k = choose|k: int| 0 <= k < take && #[trigger] strided(k, take, total) == m;
        vstd::arithmetic::div_mod::lemma_fundamental_div_mod(k * total, take);
        let r = (k * total) % take;
        assert(0 <= r < take);
        assert(take * m == m * take) by (nonlinear_arith);
        assert(m * take <= k * total < m * take + take);
        assert(k >= c) by (nonlinear_arith)
            requires
                (c - 1) * total < m * take <= k * total,
                total > 0,
        ;
        assert(c * total <= k * total) by (nonlinear_arith)
            requires
                c <= k,
                total > 0,
        ;
    } else if c * total < (m + 1) * take {
        assert(0 <= c) by (nonlinear_arith)
            requires
                0 <= m * take <= c * total,
                total > 0,
        ;
        assert(0 <= m * take) by (nonlinear_arith)
            requires
                m >= 0,
                take >= 0,
        ;
        assert(c < take) by (nonlinear_arith)
            requires
                c * total < (m + 1) * take,
                m + 1 <= total,
                take >= 0,
                total > 0,
        ;
        let r = c * total - m * take;
        vstd::arithmetic::div_mod::lemma_fundamental_div_mod_converse(c * total, take, m, r);
        assert(strided(c, take, total) == m);
    }
}

/// Particles are spread evenly: the first `m` of all cells hold their share of the
/// particles, rounded up.
pub proof fn law_particles_are_spread_evenly(occ: Seq<bool>, take: int, m: int)
    requires
        evenly_lit(occ, take),
        0 <= take <= occ.len(),
        0 <= m <= occ.len(),
    ensures
        (count_lit(occ.take(m)) - 1) * occ.len() < m * take <= count_lit(occ.take(m)) * occ.len() || occ.len() == 0,
    decreases m,
{
    let total = occ.len() as int;
    if total > 0 {
        if m == 0 {
            assert((0 - 1) * total < 0 * take <= 0 * total) by (nonlinear_arith)
                requires
                    total > 0,
            ;
        } else {
            law_particles_are_spread_evenly(occ, take, m - 1);
            let c = count_lit(occ.take(m - 1)) as int;
            lemma_next_stride(take, total, m - 1, c);
            assert(occ.take(m).drop_last() =~= occ.take(m - 1));
            assert(occ.take(m).last() == occ[m - 1]);
        }
    }
}

/// A blank canvas holds the particles that are asked for, or as many as there are
/// cells, spread evenly, with nothing closed and nothing painted.
pub proof fn law_a_blank_canvas_is_blank<P: Physics>(p: P, n: Numbers<P::Real>, params: Params<P::Real>, asked: int, sim: Sim<P::Real>, c: int)
    requires
        computes(p, n),
        set_up_blank(p, params, asked, sim),
        sim.wf(),
        0 <= asked,
        0 <= c < params.h * params.w,
    ensures
        sim.pos@.len() <= asked && sim.pos@.len() <= params.h * params.w,
        sim.pos@.len() == asked || sim.pos@.len() == params.h * params.w,
        ({
            let (cells, lit) = (params.h * params.w, count_lit(sim.occ@.take(c)));
            (lit - 1) * cells < c * sim.pos@.len() <= lit * cells
        }),
        !sim.blocked@[c],
        (n.val)(sim.cov@[c]) == 0 as real,
        (n.val)(sim.paint@[c]) == 0 as real,
        (n.val)(sim.line_density) == 1 as real,
{
    let total = params.h * params.w;
    let take = if asked < total {
        asked
    } else {
        total
    };
    let (cov, occ0, one) = choose|cov: Seq<P::Real>, occ0: Seq<bool>, one: P::Real| #[trigger]
        set_up(p, params, cov, occ0, one, false, sim) && (forall|c: int|
            0 <= c < total ==> call_ensures(P::zero, (&p,), #[trigger] cov[c])) && call_ensures(P::one, (&p,), one) && occ0.len()
            == total && evenly_lit(occ0, take);
    assert(call_ensures(P::zero, (&p,), cov[c]));
    assert(call_ensures(P::zero, (&p,), sim.paint@[c]));
    assert(!sim.line_blocked@[c]);
    law_particles_are_spread_evenly(sim.occ@, take, c);
}

/// A device run over lines starts from the layers of the gas on the host: particles
/// and closed cells are those of the drawing, and where single precision is precise
/// enough, the fixed potential is the repulsion of the lines.
pub proof fn law_a_device_run_is_set_up_over_its_drawing<P: Physics>(
    p: P,
    n: Numbers<P::Real>,
    params: Params<P::Real>,
    cov: Vec<P::Real>,
    occ0: Vec<bool>,
    line_density: P::Real,
    line_blocks: bool,
    sim: GpuSim<P::Real>,
    up: Upload<P::Real>,
    y: int,
    x: int,
    dist: spec_fn(int) -> real,
)
    requires
        computes(p, n),
        exact(p, n.val),
        narrowly_exact(p, n.val),
        call_ensures(GpuSim::<P::Real>::new::<P>, (&p, params, cov, occ0, line_density, line_blocks), Some((sim, up))),
        cutoff_fits(n, params.cutoff),
        forall|rc: usize| #[trigger]
            reach_is(p, params.cutoff, rc) ==> has_room(params.h as int, params.w as int, rc as int, params.periodic),
        0 <= y < params.h,
        0 <= x < params.w,
        cell_distances(params, y, x, dist),
    ensures
        ({
            let c = y * params.w + x;
            let closed = line_blocks && (n.val)(cov@[c]) + (n.val)(cov@[c]) > 1 as real;
            &&& up.blocked@[c] == closed
            &&& up.occ@[c] == (occ0@[c] && !closed)
            &&& (n.val)(up.u_edge@[c]) == tally(
                params.h * params.w,
                |k: int| (n.val)(cov@[k]) * (n.val)(line_density) * potential_at(n, dist(k), params, false),
            )
            &&& sim.params == params
        }),
{
    let host = choose|host: Sim<P::Real>| #[trigger]
        set_up(p, params, cov@, occ0@, line_density, line_blocks, host) && host.wf() && up.occ@ == host.occ@ && up.blocked@
            == host.blocked@ && up.u_edge@.len() == host.u_edge@.len() && (forall|c: int|
            0 <= c < up.u_edge@.len() ==> call_ensures(P::narrow, (&p, host.u_edge@[c]), #[trigger] up.u_edge@[c]));
    let c = flat(params.w as int, y, x);
    lemma_flat_bound(params.h as int, params.w as int, y, x);
    law_a_gas_is_set_up_over_its_drawing(p, n, params, cov@, occ0@, line_density, line_blocks, host, c);
    law_lines_cast_their_repulsion(p, n, params, cov@, occ0@, line_density, line_blocks, host, y, x, dist);
    assert(call_ensures(P::narrow, (&p, host.u_edge@[c]), up.u_edge@[c]));
    assert(starts_from(p, params, up.occ@, up.u_edge@, sim));
}

} // verus!

//! The energy by steps, which sweeps on a device go by, is that of the gas,
//! where the arithmetic is exact.

use crate::balance::{lemma_felt_particles, lemma_same_crowd, sound};
use crate::convolve::spread;
use crate::exact::{
    crowd, energy, entry, held, law_spread_is_the_direct_sum, law_total_energy_is_that_of_the_pairs, lemma_lit_cells,
    lemma_summed_exact, lemma_total_exact, pull, share_of,
};
use crate::formulas::{lemma_potential_settled, potential_is, total_is};
use crate::gpu::{starts_from, starts_from_by, GpuSim};
use crate::kernel::{by_potential, lemma_ring_bound, ring, side, table_fits};
use crate::lattice::{flat, gap, lemma_flat_bound, lemma_flat_inverse, lemma_flat_parts};
use crate::offsets::{edge_on_lit, energy_by_steps, felt_at, lists, meets, met, met_by_all, Steps};
use crate::physics::{summed, Params, Physics};
use crate::proposal::Site;
use crate::scene::{cast_by_lines, evenly_lit, set_up, set_up_blank, strided};
use crate::sim::{Layout, Sim};
use crate::tally::{lemma_tally_same, lemma_tally_zero, tally};
use crate::terms::{beyond_is, reach_is};
use vstd::prelude::*;

verus! {

/// Single precision is precise enough.
pub open spec fn narrowly_exact<P: Physics>(p: P, val: spec_fn(P::Real) -> real) -> bool {
    forall|v: P::Real, r: P::Real| #[trigger] call_ensures(P::narrow, (&p, v), r) ==> val(r) == val(v)
}

/// The sum of what a sequence reads.
spec fn sum_of<R>(val: spec_fn(R) -> real, s: Seq<R>) -> real {
    tally(s.len() as int, |i: int| val(s[i]))
}

proof fn lemma_sum_push<R>(val: spec_fn(R) -> real, s: Seq<R>, v: R)
    ensures
        sum_of(val, s.push(v)) == sum_of(val, s) + val(v),
{
    let more = s.push(v);
    lemma_tally_same(s.len() as int, |i: int| val(s[i]), |i: int| val(more[i]));
}

proof fn lemma_sum_concat<R>(val: spec_fn(R) -> real, s: Seq<R>, t: Seq<R>)
    ensures
        sum_of(val, s + t) == sum_of(val, s) + sum_of(val, t),
    decreases t.len(),
{
    if t.len() == 0 {
        assert(s + t =~= s);
    } else {
        lemma_sum_concat(val, s, t.drop_last());
        assert(s + t =~= (s + t.drop_last()).push(t.last()));
        assert(t =~= t.drop_last().push(t.last()));
        lemma_sum_push(val, s + t.drop_last(), t.last());
        lemma_sum_push(val, t.drop_last(), t.last());
    }
}

/// What the first steps meet is the same with one step more.
proof fn lemma_met_of_fewer<R>(
    steps: Steps<R>,
    dy: int,
    dx: int,
    v: R,
    occ: Seq<bool>,
    h: int,
    w: int,
    periodic: bool,
    c: int,
    k: nat,
)
    requires
        steps.wf(),
        k <= steps.v.len(),
    ensures
        met(steps.and(dy, dx, v), occ, h, w, periodic, c, k) == met(steps, occ, h, w, periodic, c, k),
    decreases k,
{
    if k > 0 {
        lemma_met_of_fewer(steps, dy, dx, v, occ, h, w, periodic, c, (k - 1) as nat);
        let more = steps.and(dy, dx, v);
        assert(more.dy[k - 1] == steps.dy[k - 1] && more.dx[k - 1] == steps.dx[k - 1] && more.v[k - 1] == steps.v[k - 1]);
    }
}

/// A listing has a row and a column for each of its values.
proof fn lemma_lists_wf<P: Physics>(p: P, lay: Layout<P::Real>, n: nat, steps: Steps<P::Real>)
    requires
        lists(p, lay.params, lay.rc as int, n, steps),
    ensures
        steps.wf(),
    decreases n,
{
    if n > 0 {
        let rc = lay.rc as int;
        let (i, j) = ((n - 1) / side(rc), (n - 1) % side(rc));
        let r2 = ring(rc, i, j);
        if r2 == 0 {
            lemma_lists_wf(p, lay, (n - 1) as nat, steps);
        } else {
            let far = choose|far: bool| #[trigger]
                beyond_is(p, r2 as i64, lay.params.cutoff, far) && if far {
                    lists(p, lay.params, rc, (n - 1) as nat, steps)
                } else {
                    exists|less: Steps<P::Real>, v: P::Real| #[trigger]
                        less.and(i - rc, j - rc, v) == steps && felt_at(p, lay.params, r2, v) && lists(
                            p,
                            lay.params,
                            rc,
                            (n - 1) as nat,
                            less,
                        )
                };
            if far {
                lemma_lists_wf(p, lay, (n - 1) as nat, steps);
            } else {
                let (less, v) = choose|less: Steps<P::Real>, v: P::Real| #[trigger]
                    less.and(i - rc, j - rc, v) == steps && felt_at(p, lay.params, r2, v) && lists(
                        p,
                        lay.params,
                        rc,
                        (n - 1) as nat,
                        less,
                    );
                lemma_lists_wf(p, lay, (n - 1) as nat, less);
            }
        }
    }
}

/// What is felt under the first `n` entries of the table.
spec fn felt_under<R>(val: spec_fn(R) -> real, lay: Layout<R>, s: Site, n: nat) -> real {
    tally(
        n as int,
        |i: int|
            if lay.felt(s, Seq::empty(), i) {
                val(lay.kernel[i])
            } else {
                0 as real
            },
    )
}

/// The steps meet what the table makes felt.
proof fn lemma_met_is_felt<P: Physics>(p: P, val: spec_fn(P::Real) -> real, lay: Layout<P::Real>, s: Site, n: nat, steps: Steps<P::Real>)
    requires
        sound(p, val, lay),
        narrowly_exact(p, val),
        table_fits(lay.rc as int),
        lay.board().on_board(s),
        n <= side(lay.rc as int) * side(lay.rc as int),
        lists(p, lay.params, lay.rc as int, n, steps),
    ensures
        sum_of(
            val,
            met(
                steps,
                lay.occ,
                lay.params.h as int,
                lay.params.w as int,
                lay.params.periodic,
                lay.board().at(s),
                steps.v.len(),
            ),
        ) == felt_under(val, lay, s, n),
    decreases n,
{
    let (h, w, rc, periodic) = (lay.params.h as int, lay.params.w as int, lay.rc as int, lay.params.periodic);
    let c = lay.board().at(s);
    let none = Seq::<Site>::empty();
    if n > 0 {
        let k = n - 1;
        lemma_flat_inverse(side(rc), side(rc), k);
        let (i, j) = (k / side(rc), k % side(rc));
        let r2 = ring(rc, i, j);
        lemma_ring_bound(rc, i, j);
        lemma_flat_parts(w, s.0 as int, s.1 as int);
        let entry = lay.kernel[k];
        assert(by_potential(p, lay.params, true)(r2, lay.kernel[flat(side(rc), i, j)]));
        if r2 == 0 {
            lemma_met_is_felt(p, val, lay, s, (n - 1) as nat, steps);
        } else {
            let far = choose|far: bool| #[trigger]
                beyond_is(p, r2 as i64, lay.params.cutoff, far) && if far {
                    lists(p, lay.params, rc, (n - 1) as nat, steps)
                } else {
                    exists|less: Steps<P::Real>, v: P::Real| #[trigger]
                        less.and(i - rc, j - rc, v) == steps && felt_at(p, lay.params, r2, v) && lists(
                            p,
                            lay.params,
                            rc,
                            (n - 1) as nat,
                            less,
                        )
                };
            if far {
                lemma_met_is_felt(p, val, lay, s, (n - 1) as nat, steps);
                assert(call_ensures(P::zero, (&p,), entry));
            } else {
                let (less, v) = choose|less: Steps<P::Real>, v: P::Real| #[trigger]
                    less.and(i - rc, j - rc, v) == steps && felt_at(p, lay.params, r2, v) && lists(
                        p,
                        lay.params,
                        rc,
                        (n - 1) as nat,
                        less,
                    );
                lemma_met_is_felt(p, val, lay, s, (n - 1) as nat, less);
                lemma_lists_wf(p, lay, (n - 1) as nat, less);
                let wide = choose|wide: P::Real| #[trigger]
                    potential_is(p, r2, lay.params, true, wide) && call_ensures(P::narrow, (&p, wide), v);
                lemma_potential_settled(p, r2, lay.params, true, wide, entry);
                let m = less.v.len();
                lemma_met_of_fewer(less, i - rc, j - rc, v, lay.occ, h, w, periodic, c, m);
                let so_far = met(less, lay.occ, h, w, periodic, c, m);
                assert(steps.dy[m as int] == i - rc && steps.dx[m as int] == j - rc && steps.v[m as int] == v);
                assert(meets(steps, lay.occ, h, w, periodic, c, m as int) == lay.felt(s, none, k)) by {
                    assert(s.0 + (i - rc) == s.0 + i - rc && s.1 + (j - rc) == s.1 + j - rc);
                }
                lemma_sum_push(val, so_far, v);
            }
        }
    }
}

/// What all particles meet, cell by cell.
proof fn lemma_met_by_all<R>(val: spec_fn(R) -> real, steps: Steps<R>, occ: Seq<bool>, h: int, w: int, periodic: bool, n: nat)
    ensures
        sum_of(val, met_by_all(steps, occ, h, w, periodic, n)) == tally(
            n as int,
            |c: int|
                if occ[c] {
                    sum_of(val, met(steps, occ, h, w, periodic, c, steps.v.len()))
                } else {
                    0 as real
                },
        ),
    decreases n,
{
    if n > 0 {
        lemma_met_by_all(val, steps, occ, h, w, periodic, (n - 1) as nat);
        lemma_sum_concat(
            val,
            met_by_all(steps, occ, h, w, periodic, (n - 1) as nat),
            met(steps, occ, h, w, periodic, n - 1, steps.v.len()),
        );
    }
}

proof fn lemma_edge_on_lit<R>(val: spec_fn(R) -> real, occ: Seq<bool>, u_edge: Seq<R>, n: nat)
    ensures
        sum_of(val, edge_on_lit(occ, u_edge, n)) == tally(
            n as int,
            |c: int|
                if occ[c] {
                    val(u_edge[c])
                } else {
                    0 as real
                },
        ),
    decreases n,
{
    if n > 0 {
        lemma_edge_on_lit(val, occ, u_edge, (n - 1) as nat);
        if occ[n - 1] {
            lemma_sum_push(val, edge_on_lit(occ, u_edge, (n - 1) as nat), u_edge[n - 1]);
        }
    }
}

/// The sums by steps are those of the gas, over its pairs and over its particles.
pub proof fn lemma_sums_by_steps<P: Physics>(
    p: P,
    val: spec_fn(P::Real) -> real,
    lay: Layout<P::Real>,
    steps: Steps<P::Real>,
    e_mm: P::Real,
    e_edge: P::Real,
)
    requires
        sound(p, val, lay),
        narrowly_exact(p, val),
        table_fits(lay.rc as int),
        lists(p, lay.params, lay.rc as int, (side(lay.rc as int) * side(lay.rc as int)) as nat, steps),
        summed(
            p,
            met_by_all(steps, lay.occ, lay.params.h as int, lay.params.w as int, lay.params.periodic, lay.occ.len()),
            e_mm,
        ),
        summed(p, edge_on_lit(lay.occ, lay.u_edge, lay.occ.len()), e_edge),
    ensures
        val(e_mm) == crowd(val, lay, lay.pos),
        val(e_edge) == held(val, lay, lay.pos),
{
    let (h, w, rc, periodic) = (lay.params.h as int, lay.params.w as int, lay.rc as int, lay.params.periodic);
    let b = lay.board();
    let n = lay.pos.len() as int;
    let cells = lay.occ.len();
    assert(val(e_edge) == held(val, lay, lay.pos)) by {
        lemma_summed_exact(p, val, edge_on_lit(lay.occ, lay.u_edge, cells), e_edge);
        lemma_edge_on_lit(val, lay.occ, lay.u_edge, cells);
        let g = |c: int| val(lay.u_edge[c]);
        let by_cell = |c: int|
            if lay.occ[c] {
                val(lay.u_edge[c])
            } else {
                0 as real
            };
        let by_particle = |k: int| val(lay.u_edge[lay.board().at(lay.pos[k])]);
        lemma_lit_cells(b, g, by_cell, by_particle);
    }
    assert(val(e_mm) == crowd(val, lay, lay.pos)) by {
        lemma_summed_exact(p, val, met_by_all(steps, lay.occ, h, w, periodic, cells), e_mm);
        lemma_met_by_all(val, steps, lay.occ, h, w, periodic, cells);
        let g = |c: int| sum_of(val, met(steps, lay.occ, h, w, periodic, c, steps.v.len()));
        let by_cell = |c: int|
            if lay.occ[c] {
                sum_of(val, met(steps, lay.occ, h, w, periodic, c, steps.v.len()))
            } else {
                0 as real
            };
        let by_particle = |k: int| tally(n, |l: int| pull(val, lay, lay.pos[k], lay.pos[l]));
        assert forall|k: int| #![trigger by_particle(k)] 0 <= k < n implies by_particle(k) == g(b.at(b.pos[k])) by {
            let s = b.pos[k];
            let none = Seq::<Site>::empty();
            assert(b.on_board(s));
            lemma_met_is_felt(p, val, lay, s, (side(rc) * side(rc)) as nat, steps);
            lemma_felt_particles(p, val, lay, s, none);
            lemma_tally_same(
                n,
                |l: int|
                    if none.contains(lay.pos[l]) {
                        0 as real
                    } else {
                        pull(val, lay, s, lay.pos[l])
                    },
                |l: int| pull(val, lay, s, lay.pos[l]),
            );
        }
        lemma_lit_cells(b, g, by_cell, by_particle);
    }
}

/// One energy for the host and the device: where the arithmetic is exact and
/// single precision precise enough, the energy by the steps that a device is
/// given is that of the gas, pair by pair.
pub proof fn law_energy_by_steps_is_that_of_the_pairs<P: Physics>(
    p: P,
    val: spec_fn(P::Real) -> real,
    lay: Layout<P::Real>,
    steps: Steps<P::Real>,
    e: P::Real,
)
    requires
        sound(p, val, lay),
        narrowly_exact(p, val),
        table_fits(lay.rc as int),
        lists(p, lay.params, lay.rc as int, (side(lay.rc as int) * side(lay.rc as int)) as nat, steps),
        energy_by_steps(
            p,
            lay.occ,
            lay.u_edge,
            steps,
            lay.params.h as int,
            lay.params.w as int,
            lay.params.periodic,
            lay.params.charge,
            e,
        ),
    ensures
        val(e) == energy(val, lay),
{
    let (h, w, periodic) = (lay.params.h as int, lay.params.w as int, lay.params.periodic);
    let cells = lay.occ.len();
    let (e_mm, e_edge) = choose|e_mm: P::Real, e_edge: P::Real|
        summed(p, met_by_all(steps, lay.occ, h, w, periodic, cells), e_mm) && summed(
            p,
            edge_on_lit(lay.occ, lay.u_edge, cells),
            e_edge,
        ) && #[trigger] total_is(p, lay.params.charge, e_mm, e_edge, e);
    lemma_total_exact(p, val, lay.params.charge, e_mm, e_edge, e);
    lemma_sums_by_steps(p, val, lay, steps, e_mm, e_edge);
}

/// A blank canvas on the device is the one on the host: the same cells are lit,
/// the particles are as many, and where the arithmetic is exact and single
/// precision precise enough, the energies are the same.
pub proof fn law_blank_canvases_agree<P: Physics>(
    p: P,
    val: spec_fn(P::Real) -> real,
    params: Params<P::Real>,
    n: int,
    host: Sim<P::Real>,
    sim: GpuSim<P::Real>,
    occ: Seq<bool>,
    u_edge: Seq<P::Real>,
)
    requires
        set_up_blank(p, params, n, host),
        host.wf(),
        starts_from(p, params, occ, u_edge, sim),
        occ.len() == params.h * params.w,
        evenly_lit(occ, if n < params.h * params.w {
            n
        } else {
            params.h * params.w
        }),
        u_edge.len() == params.h * params.w,
        forall|c: int| 0 <= c < u_edge.len() ==> call_ensures(P::zero, (&p,), #[trigger] u_edge[c]),
    ensures
        occ == host.occ@,
        sim.particles == host.pos@.len(),
        ({
            &&& sound(p, val, host.layout())
            &&& narrowly_exact(p, val)
            &&& forall|r: usize, s: usize| #[trigger]
                reach_is(p, params.cutoff, r) && #[trigger] reach_is(p, params.cutoff, s) ==> r
                    == s
        }) ==> val(sim.energy) == energy(val, host.layout()) && val(host.energy) == energy(val, host.layout()),
{
    let total = params.h * params.w;
    let take = if n < total {
        n
    } else {
        total
    };
    let host_occ = host.occ@;
    assert forall|c: int| 0 <= c < total implies occ[c] == host_occ[c] by {
        assert(occ[c] <==> exists|k: int| 0 <= k < take && #[trigger] strided(k, take, occ.len() as int) == c);
        assert(host_occ[c] <==> exists|k: int| 0 <= k < take && #[trigger] strided(k, take, host_occ.len() as int) == c);
    }
    assert(occ =~= host_occ);
    let (rc, steps) = choose|rc: usize, steps: Steps<P::Real>| #[trigger]
        starts_from_by(p, params, occ, u_edge, sim, rc, steps);
    if {
        &&& sound(p, val, host.layout())
        &&& narrowly_exact(p, val)
        &&& forall|r: usize, s: usize| #[trigger]
            reach_is(p, params.cutoff, r) && #[trigger] reach_is(p, params.cutoff, s) ==> r == s
    } {
        let lay = host.layout();
        let (cov, occ0, line) = choose|cov: Seq<P::Real>, occ0: Seq<bool>, line: P::Real| #[trigger]
            set_up(p, params, cov, occ0, line, false, host) && (forall|c: int|
                0 <= c < total ==> call_ensures(P::zero, (&p,), #[trigger] cov[c])) && call_ensures(P::one, (&p,), line) && occ0.len()
                == total && evenly_lit(occ0, take);
        assert(rc == host.rc);
        law_total_energy_is_that_of_the_pairs(p, val, lay, host.energy);
        let plain = Layout { u_edge, ..lay };
        assert(plain.board() == lay.board());
        law_energy_by_steps_is_that_of_the_pairs(p, val, plain, steps, sim.energy);
        lemma_same_crowd(val, plain, lay, lay.pos);
        let f = |k: int| val(plain.u_edge[plain.board().at(lay.pos[k])]);
        let g = |k: int| val(lay.u_edge[lay.board().at(lay.pos[k])]);
        assert forall|k: int| #![trigger f(k)] 0 <= k < lay.pos.len() implies f(k) == g(k) by {
            let b = lay.board();
            let s = b.pos[k];
            assert(b.wf() && s == lay.pos[k]);
            assert(b.on_board(s));
            lemma_flat_bound(b.h, b.w, s.0 as int, s.1 as int);
            lemma_blank_potential(p, val, params, cov, line, host, s.0 as int, s.1 as int);
        }
        lemma_tally_same(lay.pos.len() as int, f, g);
    }
}

/// Blank lines cast no potential.
proof fn lemma_blank_potential<P: Physics>(
    p: P,
    val: spec_fn(P::Real) -> real,
    params: Params<P::Real>,
    cov: Seq<P::Real>,
    line: P::Real,
    host: Sim<P::Real>,
    y: int,
    x: int,
)
    requires
        sound(p, val, host.layout()),
        host.params == params,
        cov.len() == params.h * params.w,
        forall|c: int| 0 <= c < cov.len() ==> call_ensures(P::zero, (&p,), #[trigger] cov[c]),
        cast_by_lines(p, params, cov, line, host.kernel_edge@, host.rc as int, host.u_edge@),
        0 <= y < params.h,
        0 <= x < params.w,
    ensures
        val(host.u_edge@[flat(params.w as int, y, x)]) == 0 as real,
{
    let (h, w, rc, periodic, table) = (params.h as int, params.w as int, host.rc as int, params.periodic, host.kernel_edge@);
    let edge = choose|edge: Seq<P::Real>| #[trigger]
        spread(p, edge, h, w, table, rc, periodic, host.u_edge@) && edge.len() == cov.len() && (forall|i: int|
            0 <= i < cov.len() ==> call_ensures(P::times, (&p, cov[i], line), #[trigger] edge[i]));
    law_spread_is_the_direct_sum(p, val, edge, h, w, table, rc, periodic, host.u_edge@, y, x);
    let f = |c: int| share_of(val, edge, h, w, table, rc, periodic, y, x, c);
    assert forall|c: int| #![trigger f(c)] 0 <= c < h * w implies f(c) == 0 as real by {
        assert(call_ensures(P::times, (&p, cov[c], line), edge[c]));
        assert(call_ensures(P::zero, (&p,), cov[c]));
        let (a, k) = (val(line), entry(val, table, rc, gap(y, c / w, h, periodic), gap(x, c % w, w, periodic)));
        assert(0 as real * a == 0 as real) by (nonlinear_arith);
        assert(0 as real * k == 0 as real) by (nonlinear_arith);
    }
    lemma_tally_zero(h * w, f);
}

} // verus!

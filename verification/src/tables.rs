//! What tables hold and what sums over them come to, in real numbers.

use crate::balance::{law_moves_cost_the_change_of_energy, lemma_pairs_twice, lemma_surroundings, moved, sound};
use crate::canvas::{lemma_cast_entry, lemma_lit_as_tally};
use crate::convolve::{convolve, convolve_full, full_fits};
use crate::exact::{
    energy, entry, exact, has_room, law_full_convolution_is_the_direct_sum, law_spread_is_the_direct_sum,
    law_total_energy_is_that_of_the_pairs, pull, reads, share_of,
};
use crate::field::{
    cutoff_fits, law_tables_hold_the_potential, lemma_energy, lemma_pull, lemma_squares_as_reals, pair_distances,
    site_distance,
};
use crate::formulas::potential_is;
use crate::kernel::{build_kernel, coupling_kernel, lemma_ring_bound, ring, side, table_fits};
use crate::lattice::{count_lit, gap, lemma_flat_inverse, lemma_flat_parts, wrap};
use crate::metropolis::lemma_turned_onto;
use crate::numbers::{cast_at, computes, is_distance, lemma_potential, lemma_reach, potential_at, whole, Numbers};
use crate::offsets::{build_offset_table, felt_at, listed_to, lists, OffsetTable, Steps};
use crate::paint::lit_among;
use crate::parity::narrowly_exact;
use crate::physics::{Params, Physics};
use crate::proposal::{Moves, Site};
use crate::scene::strided_occupancy;
use crate::sim::{all_on_board, Sim};
use crate::start::law_particles_are_spread_evenly;
use crate::tally::{lemma_tally_same, tally};
use crate::terms::{beyond_is, reach_is};
use vstd::prelude::*;

verus! {

/// An interaction table reaches the cutoff, and holds the potential at each step from
/// its centre; none is left outside it.
pub proof fn law_interaction_tables_in_numbers<P: Physics>(
    p: P,
    n: Numbers<P::Real>,
    params: Params<P::Real>,
    attractive: bool,
    rc: usize,
    table: Vec<P::Real>,
    y: int,
    x: int,
    d: real,
)
    requires
        computes(p, n),
        cutoff_fits(n, params.cutoff),
        call_ensures(build_kernel::<P>, (&p, &params, attractive), Some((rc, table))),
        is_distance(d, whole(y), whole(x)),
    ensures
        table@.len() == (2 * rc + 1) * (2 * rc + 1),
        (n.val)(params.cutoff) <= whole(rc as int),
        rc > 1 ==> whole(rc - 1) < (n.val)(params.cutoff),
        (if -rc <= y <= rc && -rc <= x <= rc {
            (n.val)(table@[(y + rc) * (2 * rc + 1) + (x + rc)])
        } else {
            0 as real
        }) == potential_at(n, d, params, attractive),
{
    lemma_reach(p, n, params.cutoff, rc);
    law_tables_hold_the_potential(p, n, params, attractive, rc, table@, y, x, d);
}

/// A coupling table reaches the coupling radius, and holds what painted charge casts
/// at each step from its centre; none is left outside it.
pub proof fn law_coupling_tables_in_numbers<P: Physics>(
    p: P,
    n: Numbers<P::Real>,
    strength: P::Real,
    screening: P::Real,
    coupling: P::Real,
    hardness: P::Real,
    rp: usize,
    table: Vec<P::Real>,
    edge: usize,
    y: int,
    x: int,
    d: real,
)
    requires
        computes(p, n),
        cutoff_fits(n, coupling),
        call_ensures(coupling_kernel::<P>, (&p, strength, screening, coupling, hardness), Some((rp, table, edge))),
        is_distance(d, whole(y), whole(x)),
    ensures
        edge == 2 * rp + 1,
        table@.len() == edge * edge,
        (n.val)(coupling) <= whole(rp as int),
        rp > 1 ==> whole(rp - 1) < (n.val)(coupling),
        (if -rp <= y <= rp && -rp <= x <= rp {
            (n.val)(table@[(y + rp) * edge + (x + rp)])
        } else {
            0 as real
        }) == cast_at(n, d, (n.val)(strength), (n.val)(screening), (n.val)(coupling), (n.val)(hardness)),
{
    lemma_reach(p, n, coupling, rp);
    lemma_cast_entry(p, n, strength, screening, coupling, hardness, rp, table@, y, x, d);
}

/// The step `(y, x)` is no longer than the cutoff.
pub open spec fn within_cutoff(cutoff: real, y: int, x: int) -> bool {
    cutoff >= 0 as real && whole(y * y + x * x) <= cutoff * cutoff
}

/// The place in a table of a step.
spec fn place_of<R>(steps: Steps<R>, rc: int, k: int) -> int {
    (steps.dy[k] + rc) * side(rc) + (steps.dx[k] + rc)
}

/// Step `k` leads to a cell of the first `m` of a table, which is not its centre and
/// within the cutoff, and has the potential there.
spec fn is_step<P: Physics>(p: P, n: Numbers<P::Real>, params: Params<P::Real>, rc: int, m: int, steps: Steps<P::Real>, k: int) -> bool {
    let (y, x) = (steps.dy[k] as int, steps.dx[k] as int);
    &&& -rc <= y <= rc && -rc <= x <= rc
    &&& place_of(steps, rc, k) < m
    &&& (y != 0 || x != 0)
    &&& within_cutoff((n.val)(params.cutoff), y, x)
    &&& felt_at(p, params, y * y + x * x, steps.v[k])
}

spec fn has_step<R>(steps: Steps<R>, y: int, x: int) -> bool {
    exists|k: int| 0 <= k < steps.v.len() && #[trigger] steps.dy[k] == y && steps.dx[k] == x
}

proof fn lemma_far<P: Physics>(p: P, n: Numbers<P::Real>, params: Params<P::Real>, r2: int, far: bool)
    requires
        computes(p, n),
        0 <= r2 <= i64::MAX,
        beyond_is(p, r2 as i64, params.cutoff, far),
    ensures
        !far <==> (n.val)(params.cutoff) >= 0 as real && whole(r2) <= (n.val)(params.cutoff) * (n.val)(params.cutoff),
{
    let root = choose|root: P::Real| #[trigger]
        call_ensures(P::exceeds, (&p, root, params.cutoff), far) && call_ensures(P::root, (&p, r2 as i64), root);
    let (r, c) = ((n.val)(root), (n.val)(params.cutoff));
    assert(r * r == whole(r2) && r >= 0 as real);
    if c >= 0 as real {
        assert(r <= c <==> r * r <= c * c) by (nonlinear_arith)
            requires
                r >= 0 as real,
                c >= 0 as real,
        ;
    }
}

proof fn lemma_listed<P: Physics>(p: P, n: Numbers<P::Real>, params: Params<P::Real>, rc: int, m: nat, steps: Steps<P::Real>)
    requires
        computes(p, n),
        table_fits(rc),
        0 <= rc,
        m <= side(rc) * side(rc),
        lists(p, params, rc, m, steps),
    ensures
        steps.wf(),
        forall|k: int| 0 <= k < steps.v.len() ==> #[trigger] is_step(p, n, params, rc, m as int, steps, k),
        forall|k: int, l: int| 0 <= k < l < steps.v.len() ==> #[trigger] place_of(steps, rc, k) < #[trigger] place_of(steps, rc, l),
        forall|y: int, x: int|
            -rc <= y <= rc && -rc <= x <= rc && (y + rc) * side(rc) + (x + rc) < m && (y != 0 || x != 0) && within_cutoff(
                (n.val)(params.cutoff),
                y,
                x,
            ) ==> #[trigger] has_step(steps, y, x),
    decreases m,
{
    let s = side(rc);
    if m > 0 {
        lemma_flat_inverse(s, s, m - 1);
        let (i, j) = ((m - 1) / s, (m - 1) % s);
        let (a, b) = (i - rc, j - rc);
        let r2 = ring(rc, i, j);
        lemma_ring_bound(rc, i, j);
        lemma_ring_bound(rc, 0, 0);
        assert(r2 == a * a + b * b);
        assert(r2 == 0 <==> a == 0 && b == 0) by (nonlinear_arith)
            requires
                r2 == a * a + b * b,
        ;
        let far = if r2 == 0 {
            true
        } else {
            choose|far: bool| #[trigger]
                beyond_is(p, r2 as i64, params.cutoff, far) && if far {
                    lists(p, params, rc, (m - 1) as nat, steps)
                } else {
                    exists|less: Steps<P::Real>, v: P::Real| #[trigger]
                        less.and(i - rc, j - rc, v) == steps && felt_at(p, params, r2, v) && lists(
                            p,
                            params,
                            rc,
                            (m - 1) as nat,
                            less,
                        )
                }
        };
        if r2 != 0 {
            lemma_far(p, n, params, r2, far);
        }
        if far {
            lemma_listed(p, n, params, rc, (m - 1) as nat, steps);
            assert forall|k: int| 0 <= k < steps.v.len() implies #[trigger] is_step(p, n, params, rc, m as int, steps, k) by {
                assert(is_step(p, n, params, rc, m - 1, steps, k));
            }
            assert forall|y: int, x: int|
                -rc <= y <= rc && -rc <= x <= rc && (y + rc) * side(rc) + (x + rc) < m && (y != 0 || x != 0) && within_cutoff(
                    (n.val)(params.cutoff),
                    y,
                    x,
                ) implies #[trigger] has_step(steps, y, x) by {
                lemma_flat_parts(s, y + rc, x + rc);
                if (y + rc) * s + (x + rc) == m - 1 {
                    assert(y == a && x == b);
                }
            }
        } else {
            let (less, v) = choose|less: Steps<P::Real>, v: P::Real| #[trigger]
                less.and(i - rc, j - rc, v) == steps && felt_at(p, params, r2, v) && lists(p, params, rc, (m - 1) as nat, less);
            lemma_listed(p, n, params, rc, (m - 1) as nat, less);
            let last = less.v.len() as int;
            assert(steps.dy[last] == a && steps.dx[last] == b && steps.v[last] == v);
            assert(place_of(steps, rc, last) == m - 1);
            assert forall|k: int| 0 <= k < steps.v.len() implies #[trigger] is_step(p, n, params, rc, m as int, steps, k) by {
                if k < last {
                    assert(is_step(p, n, params, rc, m - 1, less, k));
                    assert(steps.dy[k] == less.dy[k] && steps.dx[k] == less.dx[k] && steps.v[k] == less.v[k]);
                }
            }
            assert forall|k: int, l: int| 0 <= k < l < steps.v.len() implies #[trigger] place_of(steps, rc, k)
                < #[trigger] place_of(steps, rc, l) by {
                assert(is_step(p, n, params, rc, m - 1, less, k));
                assert(place_of(steps, rc, k) == place_of(less, rc, k));
                if l < last {
                    assert(place_of(steps, rc, l) == place_of(less, rc, l));
                }
            }
            assert forall|y: int, x: int|
                -rc <= y <= rc && -rc <= x <= rc && (y + rc) * side(rc) + (x + rc) < m && (y != 0 || x != 0) && within_cutoff(
                    (n.val)(params.cutoff),
                    y,
                    x,
                ) implies #[trigger] has_step(steps, y, x) by {
                lemma_flat_parts(s, y + rc, x + rc);
                if (y + rc) * s + (x + rc) == m - 1 {
                    assert(steps.dy[last] == y && steps.dx[last] == x);
                } else {
                    assert(has_step(less, y, x));
                    let k = choose|k: int| 0 <= k < less.v.len() && #[trigger] less.dy[k] == y && less.dx[k] == x;
                    assert(steps.dy[k] == y && steps.dx[k] == x);
                }
            }
        }
    }
}

/// The steps of a device are those within the cutoff: every step that is one, and is
/// no longer than the cutoff, is listed once, row by row, with the potential at its
/// end, and no other is.
pub proof fn law_steps_are_those_within_the_cutoff<P: Physics>(
    p: P,
    n: Numbers<P::Real>,
    params: Params<P::Real>,
    off: OffsetTable<P::Real>,
    k: int,
    l: int,
    y: int,
    x: int,
    d: real,
)
    requires
        computes(p, n),
        narrowly_exact(p, n.val),
        cutoff_fits(n, params.cutoff),
        call_ensures(build_offset_table::<P>, (&p, &params), Some(off)),
    ensures
        off.dy@.len() == off.v@.len() == off.dx@.len(),
        0 <= k < off.v@.len() ==> {
            let (v, u) = (off.dy@[k] as int, off.dx@[k] as int);
            &&& v != 0 || u != 0
            &&& within_cutoff((n.val)(params.cutoff), v, u)
            &&& is_distance(d, whole(v), whole(u)) ==> (n.val)(off.v@[k]) == potential_at(n, d, params, true)
        },
        0 <= k < l < off.v@.len() ==> off.dy@[k] < off.dy@[l] || off.dy@[k] == off.dy@[l] && off.dx@[k] < off.dx@[l],
        (y != 0 || x != 0) && within_cutoff((n.val)(params.cutoff), y, x) ==> exists|i: int|
            0 <= i < off.v@.len() && #[trigger] off.dy@[i] == y && off.dx@[i] == x,
{
    let rc = choose|rc: usize| #[trigger]
        reach_is(p, params.cutoff, rc) && listed_to(p, params, rc, off@);
    let (s, c) = (side(rc as int), rc as int);
    let m = s * s;
    lemma_reach(p, n, params.cutoff, rc);
    lemma_ring_bound(c, 0, 0);
    assert(m >= 0) by (nonlinear_arith)
        requires
            m == s * s,
    ;
    lemma_listed(p, n, params, c, m as nat, off@);
    if 0 <= k < off.v@.len() {
        assert(is_step(p, n, params, c, m, off@, k));
        let (v, u) = (off.dy@[k] as int, off.dx@[k] as int);
        if is_distance(d, whole(v), whole(u)) {
            let r2 = ring(c, v + c, u + c);
            lemma_ring_bound(c, v + c, u + c);
            assert(r2 == v * v + u * u);
            let wide = choose|wide: P::Real| #[trigger]
                potential_is(p, v * v + u * u, params, true, wide) && call_ensures(P::narrow, (&p, wide), off.v@[k]);
            lemma_squares_as_reals(v, u);
            lemma_potential(p, n, r2 as i64, params, true, wide, d);
        }
    }
    if 0 <= k < l < off.v@.len() {
        assert(is_step(p, n, params, c, m, off@, k) && is_step(p, n, params, c, m, off@, l));
        assert(place_of(off@, c, k) < place_of(off@, c, l));
        let (a, b) = (off.dy@[k] + c, off.dy@[l] + c);
        if a > b {
            assert(a * s >= b * s + s) by (nonlinear_arith)
                requires
                    a >= b + 1,
                    s >= 0,
            ;
        }
    }
    if (y != 0 || x != 0) && within_cutoff((n.val)(params.cutoff), y, x) {
        let (q, far) = ((n.val)(params.cutoff), whole(c));
        lemma_squares_as_reals(y, x);
        let (a, b) = (whole(y), whole(x));
        assert(-far <= a <= far && -far <= b <= far) by (nonlinear_arith)
            requires
                a * a + b * b <= q * q,
                0 as real <= q <= far,
        ;
        crate::lattice::lemma_flat_bound(s, s, y + c, x + c);
        assert(has_step(off@, y, x));
    }
}

/// A charge on a site feels the potential of every particle that is not left out.
pub proof fn law_charges_feel_the_particles<P: Physics>(
    p: P,
    n: Numbers<P::Real>,
    sim: Sim<P::Real>,
    s: Site,
    mask: Vec<Site>,
    r: P::Real,
    dist: spec_fn(int) -> real,
)
    requires
        computes(p, n),
        sound(p, n.val, sim.layout()),
        sim.wf(),
        cutoff_fits(n, sim.params.cutoff),
        reach_is(p, sim.params.cutoff, sim.rc),
        sim.layout().board().on_board(s),
        call_ensures(Sim::<P::Real>::gather_bool::<P>, (&sim, &p, s, &mask), r),
        forall|l: int| 0 <= l < sim.pos@.len() ==> site_distance(sim.params, s, sim.pos@[l], #[trigger] dist(l)),
    ensures
        (n.val)(r) == tally(
            sim.pos@.len() as int,
            |l: int|
                if mask@.contains(sim.pos@[l]) {
                    0 as real
                } else {
                    potential_at(n, dist(l), sim.params, true)
                },
        ),
{
    let lay = sim.layout();
    let b = lay.board();
    lemma_surroundings(p, n.val, lay, s, mask@, r);
    let f = |l: int|
        if mask@.contains(lay.pos[l]) {
            0 as real
        } else {
            pull(n.val, lay, s, lay.pos[l])
        };
    let g = |l: int|
        if mask@.contains(sim.pos@[l]) {
            0 as real
        } else {
            potential_at(n, dist(l), sim.params, true)
        };
    assert forall|l: int| #![trigger f(l)] 0 <= l < sim.pos@.len() implies f(l) == g(l) by {
        assert(b.on_board(b.pos[l]));
        assert(site_distance(sim.params, s, sim.pos@[l], dist(l)));
        lemma_pull(p, n, lay, s, lay.pos[l], dist(l));
    }
    lemma_tally_same(sim.pos@.len() as int, f, g);
}

/// Charges on some sites have, with one another, the potential of each pair: half
/// that of all ordered pairs.
pub proof fn law_pairs_have_their_potential<P: Physics>(
    p: P,
    n: Numbers<P::Real>,
    sim: Sim<P::Real>,
    sites: Vec<Site>,
    r: P::Real,
    dist: spec_fn(int, int) -> real,
)
    requires
        computes(p, n),
        sound(p, n.val, sim.layout()),
        sim.wf(),
        cutoff_fits(n, sim.params.cutoff),
        reach_is(p, sim.params.cutoff, sim.rc),
        all_on_board(sim.layout().board(), sites@),
        call_ensures(Sim::<P::Real>::pair_energy::<P>, (&sim, &p, &sites), r),
        forall|k: int, l: int|
            0 <= k < sites@.len() && 0 <= l < sites@.len() ==> site_distance(sim.params, sites@[k], sites@[l], #[trigger] dist(k, l)),
    ensures
        (n.val)(r) + (n.val)(r) == tally(
            sites@.len() as int,
            |k: int| tally(sites@.len() as int, |l: int| potential_at(n, dist(k, l), sim.params, true)),
        ),
{
    let lay = sim.layout();
    let m = sites@.len() as int;
    lemma_pairs_twice(p, n.val, lay, sites@, r);
    let f = |k: int| tally(m, |l: int| pull(n.val, lay, sites@[k], sites@[l]));
    let g = |k: int| tally(m, |l: int| potential_at(n, dist(k, l), sim.params, true));
    assert forall|k: int| #![trigger f(k)] 0 <= k < m implies f(k) == g(k) by {
        let (a, b) = (
            |l: int| pull(n.val, lay, sites@[k], sites@[l]),
            |l: int| potential_at(n, dist(k, l), sim.params, true),
        );
        assert forall|l: int| #![trigger a(l)] 0 <= l < m implies a(l) == b(l) by {
            assert(lay.board().on_board(sites@[k]) && lay.board().on_board(sites@[l]));
            assert(site_distance(sim.params, sites@[k], sites@[l], dist(k, l)));
            lemma_pull(p, n, lay, sites@[k], sites@[l], dist(k, l));
        }
        lemma_tally_same(m, a, b);
    }
    lemma_tally_same(m, f, g);
}

/// The energy of a gas is that of its pairs, by the square of the charge, and of its
/// particles in the fixed potential, by the charge.
pub proof fn law_total_energy_in_numbers<P: Physics>(
    p: P,
    n: Numbers<P::Real>,
    sim: Sim<P::Real>,
    e: P::Real,
    dist: spec_fn(int, int) -> real,
)
    requires
        computes(p, n),
        sound(p, n.val, sim.layout()),
        sim.wf(),
        cutoff_fits(n, sim.params.cutoff),
        reach_is(p, sim.params.cutoff, sim.rc),
        call_ensures(Sim::<P::Real>::total_energy::<P>, (&sim, &p), e),
        pair_distances(sim, dist),
    ensures
        ({
            let (m, q) = (sim.pos@.len() as int, (n.val)(sim.params.charge));
            (n.val)(e) == q * q * (tally(m, |k: int| tally(m, |l: int| potential_at(n, dist(k, l), sim.params, true))) / 2 as real)
                + q * tally(m, |k: int| (n.val)(sim.u_edge@[sim.pos@[k].0 * sim.params.w + sim.pos@[k].1]))
        }),
{
    law_total_energy_is_that_of_the_pairs(p, n.val, sim.layout(), e);
    lemma_energy(p, n, sim, dist);
}

/// Moves cost what the energy of the gas changes by.
pub proof fn law_cost_in_numbers<P: Physics>(p: P, n: Numbers<P::Real>, sim: Sim<P::Real>, moves: Moves, de: P::Real)
    requires
        computes(p, n),
        sound(p, n.val, sim.layout()),
        moves@.legal(sim.layout().board()),
        call_ensures(Sim::<P::Real>::cost::<P>, (&sim, &p, &moves), de),
    ensures
        (n.val)(de) == energy(n.val, moved(sim.layout(), moves@)) - energy(n.val, sim.layout()),
{
    law_moves_cost_the_change_of_energy(p, n.val, sim.layout(), moves@, de);
}

/// A field convolved by a table is, on every cell, the sum over all cells of what
/// they hold by the entry of the table at the step between them, on a torus the
/// shorter way round.
pub proof fn law_convolution_in_numbers<P: Physics>(
    p: P,
    n: Numbers<P::Real>,
    field: Vec<P::Real>,
    h: usize,
    w: usize,
    table: Vec<P::Real>,
    rc: usize,
    periodic: bool,
    out: Vec<P::Real>,
    y: int,
    x: int,
)
    requires
        exact(p, n.val),
        field@.len() == h * w,
        has_room(h as int, w as int, rc as int, periodic),
        call_ensures(convolve::<P>, (&p, &field, h, w, &table, rc, periodic), out),
        0 <= y < h,
        0 <= x < w,
    ensures
        out@.len() == h * w,
        (n.val)(out@[y * w + x]) == tally(
            h * w,
            |c: int|
                (n.val)(field@[c]) * entry(
                    n.val,
                    table@,
                    rc as int,
                    gap(y, c / w as int, h as int, periodic),
                    gap(x, c % w as int, w as int, periodic),
                ),
        ),
{
    law_spread_is_the_direct_sum(p, n.val, field@, h as int, w as int, table@, rc as int, periodic, out@, y, x);
    lemma_tally_same(
        h * w,
        |c: int| share_of(n.val, field@, h as int, w as int, table@, rc as int, periodic, y, x, c),
        |c: int|
            (n.val)(field@[c]) * entry(
                n.val,
                table@,
                rc as int,
                gap(y, c / w as int, h as int, periodic),
                gap(x, c % w as int, w as int, periodic),
            ),
    );
}

/// A full convolution has room for all steps, and holds at each the sum of the
/// products of the cells whose steps add up to it.
pub proof fn law_full_convolution_in_numbers<P: Physics>(
    p: P,
    n: Numbers<P::Real>,
    a: Vec<P::Real>,
    ah: usize,
    aw: usize,
    b: Vec<P::Real>,
    bh: usize,
    bw: usize,
    r: (Vec<P::Real>, usize, usize),
    y: int,
    x: int,
)
    requires
        exact(p, n.val),
        full_fits(ah as int, aw as int, bh as int, bw as int),
        call_ensures(convolve_full::<P>, (&p, &a, ah, aw, &b, bh, bw), r),
        0 <= y < ah + bh - 1,
        0 <= x < aw + bw - 1,
    ensures
        r.1 == ah + bh - 1 && r.2 == aw + bw - 1 && r.0@.len() == r.1 * r.2,
        (n.val)(r.0@[y * r.2 + x]) == tally(
            ah * aw,
            |c: int|
                if 0 <= y - c / aw as int && y - c / aw as int <= bh - 1 && 0 <= x - c % aw as int && x - c % aw as int <= bw - 1 {
                    (n.val)(a@[c]) * (n.val)(b@[(y - c / aw as int) * bw + (x - c % aw as int)])
                } else {
                    0 as real
                },
        ),
{
    let (h, w) = (ah as int, aw as int);
    law_full_convolution_is_the_direct_sum(p, n.val, a@, h, w, b@, bh as int, bw as int, r.0@, y, x);
    let f = |c: int| (n.val)(a@[c]) * reads(n.val, b@, bh as int, bw as int, y - c / w, x - c % w);
    let g = |c: int|
        if 0 <= y - c / aw as int && y - c / aw as int <= bh - 1 && 0 <= x - c % aw as int && x - c % aw as int <= bw - 1 {
            (n.val)(a@[c]) * (n.val)(b@[(y - c / aw as int) * bw + (x - c % aw as int)])
        } else {
            0 as real
        };
    assert forall|c: int| #![trigger f(c)] 0 <= c < h * w implies f(c) == g(c) by {
        let v = (n.val)(a@[c]);
        assert(v * (0 as real) == 0 as real) by (nonlinear_arith);
    }
    lemma_tally_same(h * w, f, g);
}

/// A number is carried onto a ring by whole turns.
pub proof fn law_numbers_are_carried_by_whole_turns(v: i64, n: i64, r: i64)
    requires
        n > 0,
        call_ensures(wrap, (v, n), r),
    ensures
        0 <= r < n,
        (r - v) % n as int == 0,
{
    lemma_turned_onto(v as int, n as int);
}

/// Cells are lit evenly, as many as are asked for, and each that is lit counts as
/// one.
pub proof fn law_cells_are_lit_and_counted(total: usize, take: usize, occ: Vec<bool>, n: usize, m: int)
    requires
        take <= total,
        call_ensures(strided_occupancy, (total, take), occ),
        call_ensures(lit_among, (&occ,), n),
        0 <= m <= total,
    ensures
        occ@.len() == total,
        n == take,
        total > 0 ==> (count_lit(occ@.take(m)) - 1) * total < m * take <= count_lit(occ@.take(m)) * total,
        whole(n as int) == tally(
            total as int,
            |c: int|
                if occ@[c] {
                    1 as real
                } else {
                    0 as real
                },
        ),
{
    law_particles_are_spread_evenly(occ@, take as int, m);
    lemma_lit_as_tally(occ@);
}

} // verus!

//! Potentials and energies of the gas in real numbers.

use crate::balance::{law_a_gas_starts_with_its_energy, within_reach};
use crate::convolve::{field_fits, spread};
use crate::exact::{energy, exact, has_room, law_spread_is_the_direct_sum, pull, share_of};
use crate::formulas::potentials_settled;
use crate::kernel::{by_potential, lemma_ring_bound, radial, ring, side, table_fits};
use crate::lattice::{flat, gap, lemma_flat_inverse};
use crate::numbers::{computes, in_range, is_distance, lemma_potential, lemma_reach, potential_at, whole, Numbers};
use crate::physics::{Params, Physics};
use crate::proposal::Site;
use crate::scene::set_up;
use crate::sim::{Layout, Sim};
use crate::tally::{lemma_tally_same, tally};
use crate::terms::{beyond_is, reach_is};
use vstd::prelude::*;

verus! {

/// `d` is the step from `b` to `a`, which on a torus of `n` cells goes the shorter
/// way round.
pub open spec fn shortest(d: int, a: int, b: int, n: int, periodic: bool) -> bool {
    if periodic {
        (d - (a - b)) % n == 0 && -n <= 2 * d <= n
    } else {
        d == a - b
    }
}

/// There is one shortest step, but for its sign half way round.
pub proof fn lemma_shortest(d: int, a: int, b: int, n: int, periodic: bool)
    requires
        n > 0,
        shortest(d, a, b, n, periodic),
    ensures
        d == gap(a, b, n, periodic) || d == -gap(a, b, n, periodic),
{
    if periodic {
        let g = gap(a, b, n, periodic);
        let e = a - b + n / 2;
        vstd::arithmetic::div_mod::lemma_fundamental_div_mod(e, n);
        vstd::arithmetic::div_mod::lemma_fundamental_div_mod(d - (a - b), n);
        let k = (d - (a - b)) / n + e / n;
        assert(d - g == n * k) by (nonlinear_arith)
            requires
                d - (a - b) == n * ((d - (a - b)) / n),
                e == n * (e / n) + e % n,
                e == a - b + n / 2,
                g == e % n - n / 2,
                k == (d - (a - b)) / n + e / n,
        ;
        assert(-n <= 2 * g <= n);
        assert(-1 <= k <= 1) by (nonlinear_arith)
            requires
                -n <= n * k <= n,
                n > 0,
        ;
        if k == 1 {
            assert(n * 1 == n);
        } else if k == -1 {
            assert(n * -1 == -n);
        } else {
            assert(n * 0 == 0);
        }
    }
}

pub proof fn lemma_squares_as_reals(y: int, x: int)
    ensures
        whole(y) * whole(y) + whole(x) * whole(x) == whole(y * y + x * x),
{
    lemma_square_as_real(y);
    lemma_square_as_real(x);
}

proof fn lemma_square_as_real(y: int)
    ensures
        whole(y) * whole(y) == whole(y * y),
{
    if y >= 0 {
        crate::plane::lemma_product_as_real(y, y);
    } else {
        crate::plane::lemma_product_as_real(-y, -y);
        let (a, b) = (whole(y), whole(-y));
        assert(a * a == b * b) by (nonlinear_arith)
            requires
                b == -a,
        ;
        assert((-y) * (-y) == y * y) by (nonlinear_arith);
    }
}

/// A distance is no shorter than the steps along the axes.
pub proof fn lemma_longer_than_its_steps(d: real, y: int, x: int, rc: int)
    requires
        is_distance(d, whole(y), whole(x)),
        rc >= 0,
        !(-rc <= y <= rc && -rc <= x <= rc),
    ensures
        d > whole(rc),
{
    let (a, b, r) = (whole(y), whole(x), whole(rc));
    assert(d > r) by (nonlinear_arith)
        requires
            d >= 0 as real,
            d * d == a * a + b * b,
            r >= 0 as real,
            a < -r || a > r || b < -r || b > r,
    ;
}

/// The machine holds the cutoff in whole cells.
pub open spec fn cutoff_fits<R>(n: Numbers<R>, cutoff: R) -> bool {
    in_range((n.val)(cutoff)) && (n.val)(cutoff) <= whole(usize::MAX as int)
}

/// An interaction table holds the potential at each step from its centre, and
/// nothing is left outside it.
pub proof fn law_tables_hold_the_potential<P: Physics>(
    p: P,
    n: Numbers<P::Real>,
    params: Params<P::Real>,
    attractive: bool,
    rc: usize,
    table: Seq<P::Real>,
    y: int,
    x: int,
    d: real,
)
    requires
        computes(p, n),
        cutoff_fits(n, params.cutoff),
        reach_is(p, params.cutoff, rc),
        table_fits(rc as int),
        radial(table, rc as int, by_potential(p, params, attractive)),
        is_distance(d, whole(y), whole(x)),
    ensures
        (if -rc <= y <= rc && -rc <= x <= rc {
            (n.val)(table[(y + rc) * (2 * rc + 1) + (x + rc)])
        } else {
            0 as real
        }) == potential_at(n, d, params, attractive),
{
    lemma_reach(p, n, params.cutoff, rc);
    if -rc <= y <= rc && -rc <= x <= rc {
        let (i, j) = (y + rc, x + rc);
        let c = rc as int;
        lemma_ring_bound(c, i, j);
        let r2 = ring(c, i, j);
        assert(i - c == y && j - c == x);
        lemma_squares_as_reals(y, x);
        let v = table[flat(side(c), i, j)];
        assert(by_potential(p, params, attractive)(r2, v));
        lemma_potential(p, n, r2 as i64, params, attractive, v, d);
    } else {
        lemma_longer_than_its_steps(d, y, x, rc as int);
    }
}

/// Nothing of the potential reaches beyond the table.
proof fn lemma_within_reach<P: Physics>(p: P, n: Numbers<P::Real>, params: Params<P::Real>, rc: usize)
    requires
        computes(p, n),
        cutoff_fits(n, params.cutoff),
        reach_is(p, params.cutoff, rc),
    ensures
        within_reach(p, params, rc as int),
{
    lemma_reach(p, n, params.cutoff, rc);
    assert forall|r2: i64, far: bool| #[trigger] beyond_is(p, r2, params.cutoff, far) && r2 > rc * rc implies far by {
        let root = choose|root: P::Real| #[trigger]
            call_ensures(P::exceeds, (&p, root, params.cutoff), far) && call_ensures(P::root, (&p, r2), root);
        let c = rc as int;
        assert(c * c >= 0) by (nonlinear_arith);
        lemma_square_as_real(c);
        let (r, k) = ((n.val)(root), whole(c));
        assert(r * r > k * k);
        assert(r > k) by (nonlinear_arith)
            requires
                r >= 0 as real,
                k >= 0 as real,
                r * r > k * k,
        ;
    }
}

/// The distances between the particles, on a torus the shorter way round.
pub open spec fn pair_distances<R>(sim: Sim<R>, dist: spec_fn(int, int) -> real) -> bool {
    forall|k: int, l: int|
        0 <= k < sim.pos@.len() && 0 <= l < sim.pos@.len() ==> pair_distance(sim, k, l, #[trigger] dist(k, l))
}

pub open spec fn pair_distance<R>(sim: Sim<R>, k: int, l: int, d: real) -> bool {
    site_distance(sim.params, sim.pos@[k], sim.pos@[l], d)
}

/// `d` is the distance of two sites, on a torus the shorter way round.
pub open spec fn site_distance<R>(params: Params<R>, s: Site, t: Site, d: real) -> bool {
    let (h, w, periodic) = (params.h as int, params.w as int, params.periodic);
    exists|y: int, x: int|
        shortest(y, s.0 as int, t.0 as int, h, periodic) && shortest(x, s.1 as int, t.1 as int, w, periodic) && #[trigger] is_distance(
            d,
            whole(y),
            whole(x),
        )
}

/// What particles on two sites do to each other.
pub proof fn lemma_pull<P: Physics>(p: P, n: Numbers<P::Real>, lay: Layout<P::Real>, s: Site, t: Site, d: real)
    requires
        computes(p, n),
        lay.board().fits(),
        table_fits(lay.rc as int),
        cutoff_fits(n, lay.params.cutoff),
        reach_is(p, lay.params.cutoff, lay.rc),
        radial(lay.kernel, lay.rc as int, by_potential(p, lay.params, true)),
        lay.board().on_board(s),
        lay.board().on_board(t),
        site_distance(lay.params, s, t, d),
    ensures
        pull(n.val, lay, s, t) == potential_at(n, d, lay.params, true),
{
    let (h, w, periodic) = (lay.params.h as int, lay.params.w as int, lay.params.periodic);
    let (y, x) = choose|y: int, x: int|
        shortest(y, s.0 as int, t.0 as int, h, periodic) && shortest(x, s.1 as int, t.1 as int, w, periodic) && #[trigger] is_distance(
            d,
            whole(y),
            whole(x),
        );
    lemma_shortest(y, s.0 as int, t.0 as int, h, periodic);
    lemma_shortest(x, s.1 as int, t.1 as int, w, periodic);
    let (gy, gx) = (gap(s.0 as int, t.0 as int, h, periodic), gap(s.1 as int, t.1 as int, w, periodic));
    lemma_sign_of_step(d, y, x, gy, gx);
    law_tables_hold_the_potential(p, n, lay.params, true, lay.rc, lay.kernel, gy, gx, d);
}

/// The sign of a step does not matter to its length.
pub proof fn lemma_sign_of_step(d: real, y: int, x: int, v: int, u: int)
    requires
        is_distance(d, whole(y), whole(x)),
        y == v || y == -v,
        x == u || x == -u,
    ensures
        is_distance(d, whole(v), whole(u)),
{
    let (a, b, c, e) = (whole(y), whole(x), whole(v), whole(u));
    assert(a * a == c * c && b * b == e * e) by (nonlinear_arith)
        requires
            a == c || a == -c,
            b == e || b == -e,
    ;
}

/// A gas is set up with the energy of its particles: half the potential between all
/// ordered pairs, by the square of the charge, and the fixed potential under each,
/// by the charge.
pub proof fn law_energy_in_numbers<P: Physics>(
    p: P,
    n: Numbers<P::Real>,
    params: Params<P::Real>,
    cov: Seq<P::Real>,
    occ0: Seq<bool>,
    line_density: P::Real,
    line_blocks: bool,
    sim: Sim<P::Real>,
    dist: spec_fn(int, int) -> real,
)
    requires
        computes(p, n),
        exact(p, n.val),
        potentials_settled(p),
        set_up(p, params, cov, occ0, line_density, line_blocks, sim),
        sim.wf(),
        cutoff_fits(n, params.cutoff),
        has_room(params.h as int, params.w as int, sim.rc as int, params.periodic),
        pair_distances(sim, dist),
    ensures
        ({
            let (m, q) = (sim.pos@.len() as int, (n.val)(params.charge));
            (n.val)(sim.energy) == q * q * (tally(m, |k: int| tally(m, |l: int| potential_at(n, dist(k, l), params, true))) / 2 as real)
                + q * tally(m, |k: int| (n.val)(sim.u_edge@[sim.pos@[k].0 * params.w + sim.pos@[k].1]))
        }),
{
    lemma_within_reach(p, n, params, sim.rc);
    law_a_gas_starts_with_its_energy(p, n.val, params, cov, occ0, line_density, line_blocks, sim);
    lemma_energy(p, n, sim, dist);
}

/// The energy of a gas, over its particles and their pairs.
pub proof fn lemma_energy<P: Physics>(p: P, n: Numbers<P::Real>, sim: Sim<P::Real>, dist: spec_fn(int, int) -> real)
    requires
        computes(p, n),
        sim.wf(),
        cutoff_fits(n, sim.params.cutoff),
        reach_is(p, sim.params.cutoff, sim.rc),
        radial(sim.kernel@, sim.rc as int, by_potential(p, sim.params, true)),
        pair_distances(sim, dist),
    ensures
        energy(n.val, sim.layout()) == ({
            let (m, q) = (sim.pos@.len() as int, (n.val)(sim.params.charge));
            q * q * (tally(m, |k: int| tally(m, |l: int| potential_at(n, dist(k, l), sim.params, true))) / 2 as real) + q * tally(
                m,
                |k: int| (n.val)(sim.u_edge@[sim.pos@[k].0 * sim.params.w + sim.pos@[k].1]),
            )
        }),
{
    let params = sim.params;
    let (m, lay) = (sim.pos@.len() as int, sim.layout());
    let board = lay.board();
    let f = |k: int| tally(m, |l: int| pull(n.val, lay, lay.pos[k], lay.pos[l]));
    let g = |k: int| tally(m, |l: int| potential_at(n, dist(k, l), params, true));
    assert forall|k: int| #![trigger f(k)] 0 <= k < m implies f(k) == g(k) by {
        let (a, b) = (|l: int| pull(n.val, lay, lay.pos[k], lay.pos[l]), |l: int| potential_at(n, dist(k, l), params, true));
        assert forall|l: int| #![trigger a(l)] 0 <= l < m implies a(l) == b(l) by {
            assert(pair_distance(sim, k, l, dist(k, l)));
            assert(board.on_board(board.pos[k]) && board.on_board(board.pos[l]));
            lemma_pull(p, n, lay, lay.pos[k], lay.pos[l], dist(k, l));
        }
        lemma_tally_same(m, a, b);
    }
    lemma_tally_same(m, f, g);
    lemma_tally_same(
        m,
        |k: int| (n.val)(lay.u_edge[lay.board().at(lay.pos[k])]),
        |k: int| (n.val)(sim.u_edge@[sim.pos@[k].0 * params.w + sim.pos@[k].1]),
    );
}

/// The distances of the cell `(y, x)` from all cells, on a torus the shorter way
/// round.
pub open spec fn cell_distances<R>(params: Params<R>, y: int, x: int, dist: spec_fn(int) -> real) -> bool {
    forall|c: int| 0 <= c < params.h * params.w ==> cell_distance(params, y, x, c, #[trigger] dist(c))
}

pub open spec fn cell_distance<R>(params: Params<R>, y: int, x: int, c: int, d: real) -> bool {
    let (h, w, periodic) = (params.h as int, params.w as int, params.periodic);
    exists|v: int, u: int|
        shortest(v, y, c / w, h, periodic) && shortest(u, x, c % w, w, periodic) && #[trigger] is_distance(d, whole(v), whole(u))
}

/// A field of fixed charges casts the repulsion of each.
pub proof fn lemma_charges_cast_their_repulsion<P: Physics>(
    p: P,
    n: Numbers<P::Real>,
    params: Params<P::Real>,
    edge: Seq<P::Real>,
    table: Seq<P::Real>,
    rc: usize,
    out: Seq<P::Real>,
    y: int,
    x: int,
    dist: spec_fn(int) -> real,
)
    requires
        computes(p, n),
        exact(p, n.val),
        cutoff_fits(n, params.cutoff),
        reach_is(p, params.cutoff, rc),
        table_fits(rc as int),
        radial(table, rc as int, by_potential(p, params, false)),
        field_fits(params.h as int, params.w as int, rc as int, params.periodic),
        has_room(params.h as int, params.w as int, rc as int, params.periodic),
        edge.len() == params.h * params.w,
        spread(p, edge, params.h as int, params.w as int, table, rc as int, params.periodic, out),
        0 <= y < params.h,
        0 <= x < params.w,
        cell_distances(params, y, x, dist),
    ensures
        (n.val)(out[flat(params.w as int, y, x)]) == tally(
            params.h * params.w,
            |c: int| (n.val)(edge[c]) * potential_at(n, dist(c), params, false),
        ),
{
    let (h, w, periodic) = (params.h as int, params.w as int, params.periodic);
    law_spread_is_the_direct_sum(p, n.val, edge, h, w, table, rc as int, periodic, out, y, x);
    let f = |c: int| share_of(n.val, edge, h, w, table, rc as int, periodic, y, x, c);
    let g = |c: int| (n.val)(edge[c]) * potential_at(n, dist(c), params, false);
    assert forall|c: int| #![trigger f(c)] 0 <= c < h * w implies f(c) == g(c) by {
        lemma_flat_inverse(h, w, c);
        assert(cell_distance(params, y, x, c, dist(c)));
        let (v, u) = choose|v: int, u: int|
            shortest(v, y, c / w, h, periodic) && shortest(u, x, c % w, w, periodic) && #[trigger] is_distance(
                dist(c),
                whole(v),
                whole(u),
            );
        lemma_shortest(v, y, c / w, h, periodic);
        lemma_shortest(u, x, c % w, w, periodic);
        let (gy, gx) = (gap(y, c / w, h, periodic), gap(x, c % w, w, periodic));
        lemma_sign_of_step(dist(c), v, u, gy, gx);
        law_tables_hold_the_potential(p, n, params, false, rc, table, gy, gx, dist(c));
    }
    lemma_tally_same(h * w, f, g);
}

/// Lines cast the bare repulsion of their charge: the fixed potential of a gas that
/// was set up is, on every cell, the sum over all cells of how far lines cover them,
/// by the density, by the repulsion at their distance.
pub proof fn law_lines_cast_their_repulsion<P: Physics>(
    p: P,
    n: Numbers<P::Real>,
    params: Params<P::Real>,
    cov: Seq<P::Real>,
    occ0: Seq<bool>,
    line_density: P::Real,
    line_blocks: bool,
    sim: Sim<P::Real>,
    y: int,
    x: int,
    dist: spec_fn(int) -> real,
)
    requires
        computes(p, n),
        exact(p, n.val),
        set_up(p, params, cov, occ0, line_density, line_blocks, sim),
        sim.wf(),
        cutoff_fits(n, params.cutoff),
        has_room(params.h as int, params.w as int, sim.rc as int, params.periodic),
        0 <= y < params.h,
        0 <= x < params.w,
        cell_distances(params, y, x, dist),
    ensures
        (n.val)(sim.u_edge@[y * params.w + x]) == tally(
            params.h * params.w,
            |c: int| (n.val)(cov[c]) * (n.val)(line_density) * potential_at(n, dist(c), params, false),
        ),
{
    let (h, w, rc, periodic, table) = (params.h as int, params.w as int, sim.rc as int, params.periodic, sim.kernel_edge@);
    let edge = choose|edge: Seq<P::Real>| #[trigger]
        spread(p, edge, h, w, table, rc, periodic, sim.u_edge@) && edge.len() == cov.len() && (forall|i: int|
            0 <= i < cov.len() ==> call_ensures(P::times, (&p, cov[i], line_density), #[trigger] edge[i]));
    lemma_charges_cast_their_repulsion(p, n, params, edge, table, sim.rc, sim.u_edge@, y, x, dist);
    let f = |c: int| (n.val)(edge[c]) * potential_at(n, dist(c), params, false);
    let g = |c: int| (n.val)(cov[c]) * (n.val)(line_density) * potential_at(n, dist(c), params, false);
    assert forall|c: int| #![trigger f(c)] 0 <= c < h * w implies f(c) == g(c) by {
        assert(call_ensures(P::times, (&p, cov[c], line_density), edge[c]));
    }
    lemma_tally_same(h * w, f, g);
}

} // verus!

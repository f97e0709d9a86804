//! Moves cost what the energy of the gas changes by, where the arithmetic is
//! exact.

use crate::anneal::{judged, judged_by, ran, stepped};
use crate::exact::{
    crowd, energy, exact, has_room, held, law_total_energy_is_that_of_the_pairs, lemma_lit_cells, lemma_summed_exact,
    pull,
};
use crate::formulas::{lemma_potential_settled, potential_is, potentials_settled, weighed};
use crate::kernel::{by_potential, radial, ring, side};
use crate::lattice::{
    flat, gap, lemma_flat_bound, lemma_flat_injective, lemma_flat_inverse, lemma_flat_parts, lemma_gap_leads,
    lemma_gap_of_step, lemma_gap_turns,
};
use crate::paint::{blank_report, hits_wide, laid_down_by, lays, on_lit, paints, repotentialed_by, worth};
use crate::patch::{lemma_placed_wf, lemma_under_distinct, merged, Laid};
use crate::physics::{plus_step, summed, Brush, PaintReport, Params, Physics};
use crate::proposal::{law_dealt_moves_are_legal, law_moves_conserve_particles, Board, Plan, Site};
use crate::scene::{set_up, totals};
use crate::sim::{all_on_board, bound_by, costs, costs_by, crowded, lemma_same_board, paired, shifted, Gas, Layout, Sim};
use crate::stroke::{brushed, StrokePatch, TooLarge};
use crate::tally::{
    hits, lemma_tally_bump, lemma_tally_front, lemma_tally_places, lemma_tally_plus, lemma_tally_same, lemma_tally_swap,
    lemma_tally_times, lemma_tally_zero, tally,
};
use crate::terms::beyond_is;
use crate::undo::{cleared, undone, undone_by};
use vstd::prelude::*;

verus! {

/// The table of a layout holds the potential between its particles, which has
/// one value for each distance, and none beyond the reach of the table.
pub open spec fn tabled<P: Physics>(p: P, lay: Layout<P::Real>) -> bool {
    &&& potentials_settled(p)
    &&& radial(lay.kernel, lay.rc as int, by_potential(p, lay.params, true))
    &&& within_reach(p, lay.params, lay.rc as int)
}

/// Nothing of the potential reaches further than `rc` cells.
pub open spec fn within_reach<P: Physics>(p: P, params: Params<P::Real>, rc: int) -> bool {
    forall|r2: i64, far: bool| #[trigger] beyond_is(p, r2, params.cutoff, far) && r2 > rc * rc ==> far
}

/// A layout in which what particles feel is what they do to each other.
pub open spec fn sound<P: Physics>(p: P, val: spec_fn(P::Real) -> real, lay: Layout<P::Real>) -> bool {
    &&& exact(p, val)
    &&& tabled(p, lay)
    &&& lay.board().wf()
    &&& has_room(lay.params.h as int, lay.params.w as int, lay.rc as int, lay.params.periodic)
}

/// The squares of two steps, each no longer than the lattice.
proof fn lemma_squares(dy: int, dx: int, rc: int)
    requires
        -i32::MAX <= dy <= i32::MAX,
        -i32::MAX <= dx <= i32::MAX,
        rc >= 0,
    ensures
        0 <= dy * dy + dx * dx <= i64::MAX,
        dy < -rc || dy > rc || dx < -rc || dx > rc ==> dy * dy + dx * dx > rc * rc,
{
    assert(0 <= dy * dy <= i32::MAX * i32::MAX) by (nonlinear_arith)
        requires
            -i32::MAX <= dy <= i32::MAX,
    ;
    assert(0 <= dx * dx <= i32::MAX * i32::MAX) by (nonlinear_arith)
        requires
            -i32::MAX <= dx <= i32::MAX,
    ;
    if dy < -rc || dy > rc {
        assert(dy * dy > rc * rc) by (nonlinear_arith)
            requires
                dy < -rc || dy > rc,
                rc >= 0,
        ;
    }
    if dx < -rc || dx > rc {
        assert(dx * dx > rc * rc) by (nonlinear_arith)
            requires
                dx < -rc || dx > rc,
                rc >= 0,
        ;
    }
    assert(rc * rc >= 0) by (nonlinear_arith);
}

/// The gap between two lines of the lattice, either way.
proof fn lemma_gaps(a: int, b: int, n: int, periodic: bool, rc: int)
    requires
        0 <= a < n <= i32::MAX,
        0 <= b < n,
        periodic ==> side(rc) <= n,
    ensures
        -i32::MAX <= gap(a, b, n, periodic) <= i32::MAX,
        -rc <= gap(a, b, n, periodic) <= rc ==> gap(b, a, n, periodic) == -gap(a, b, n, periodic),
        -rc <= gap(b, a, n, periodic) <= rc ==> gap(b, a, n, periodic) == -gap(a, b, n, periodic),
        gap(a, a, n, periodic) == 0,
{
    if periodic {
        lemma_gap_turns(a, b, n);
        lemma_gap_turns(b, a, n);
        let g = gap(a, b, n, true);
        let k = gap(b, a, n, true);
        if -rc <= g <= rc {
            lemma_gap_leads(a, b, n);
            lemma_turn_back(a, b, g, n);
            lemma_gap_of_step(a, -g, rc, n);
        }
        if -rc <= k <= rc {
            lemma_gap_leads(b, a, n);
            lemma_turn_back(b, a, k, n);
            lemma_gap_of_step(b, -k, rc, n);
        }
        vstd::arithmetic::div_mod::lemma_small_mod((n / 2) as nat, n as nat);
    }
}

/// A step undone.
proof fn lemma_turn_back(a: int, b: int, g: int, n: int)
    requires
        0 <= b < n,
        (b + g) % n == a,
    ensures
        (a - g) % n == b,
{
    vstd::arithmetic::div_mod::lemma_fundamental_div_mod(b + g, n);
    let k = (b + g) / n;
    assert(a - g == n * (-k) + b) by (nonlinear_arith)
        requires
            b + g == n * k + a,
    ;
    vstd::arithmetic::div_mod::lemma_mod_multiples_vanish(-k, b, n);
    vstd::arithmetic::div_mod::lemma_small_mod(b as nat, n as nat);
}

/// What the table holds for two sites is the potential at their distance.
proof fn lemma_pull_is_potential<P: Physics>(p: P, val: spec_fn(P::Real) -> real, lay: Layout<P::Real>, s: Site, t: Site, v: P::Real)
    requires
        sound(p, val, lay),
        lay.board().on_board(s),
        lay.board().on_board(t),
        potential_is(p, lay.apart(s, t), lay.params, true, v),
    ensures
        val(v) == pull(val, lay, s, t),
{
    let (h, w, rc, periodic) = (lay.params.h as int, lay.params.w as int, lay.rc as int, lay.params.periodic);
    let dy = gap(s.0 as int, t.0 as int, h, periodic);
    let dx = gap(s.1 as int, t.1 as int, w, periodic);
    lemma_gaps(s.0 as int, t.0 as int, h, periodic, rc);
    lemma_gaps(s.1 as int, t.1 as int, w, periodic, rc);
    lemma_squares(dy, dx, rc);
    let r2 = dy * dy + dx * dx;
    if -rc <= dy <= rc && -rc <= dx <= rc {
        let (i, j) = (dy + rc, dx + rc);
        assert(ring(rc, i, j) == r2);
        assert(by_potential(p, lay.params, true)(ring(rc, i, j), lay.kernel[flat(side(rc), i, j)]));
        lemma_potential_settled(p, r2, lay.params, true, v, lay.kernel[flat(side(rc), i, j)]);
    } else {
        assert(r2 > rc * rc);
        assert(rc * rc >= 0) by (nonlinear_arith);
        let far = choose|far: bool| #[trigger] beyond_is(p, r2 as i64, lay.params.cutoff, far) && (far
            ==> call_ensures(P::zero, (&p,), v));
        assert(far);
    }
}

/// Charges act on each other alike, and not on themselves.
proof fn lemma_pull_alike<P: Physics>(p: P, val: spec_fn(P::Real) -> real, lay: Layout<P::Real>, s: Site, t: Site)
    requires
        sound(p, val, lay),
        lay.board().on_board(s),
        lay.board().on_board(t),
    ensures
        pull(val, lay, s, t) == pull(val, lay, t, s),
        pull(val, lay, s, s) == 0 as real,
{
    let (h, w, rc, periodic) = (lay.params.h as int, lay.params.w as int, lay.rc as int, lay.params.periodic);
    let dy = gap(s.0 as int, t.0 as int, h, periodic);
    let dx = gap(s.1 as int, t.1 as int, w, periodic);
    lemma_gaps(s.0 as int, t.0 as int, h, periodic, rc);
    lemma_gaps(s.1 as int, t.1 as int, w, periodic, rc);
    let holds = by_potential(p, lay.params, true);
    if -rc <= dy <= rc && -rc <= dx <= rc {
        let (i, j) = (dy + rc, dx + rc);
        let (k, l) = (-dy + rc, -dx + rc);
        assert(holds(ring(rc, i, j), lay.kernel[flat(side(rc), i, j)]));
        assert(holds(ring(rc, k, l), lay.kernel[flat(side(rc), k, l)]));
        assert(ring(rc, i, j) == ring(rc, k, l)) by (nonlinear_arith)
            requires
                i == dy + rc,
                j == dx + rc,
                k == -dy + rc,
                l == -dx + rc,
        ;
        lemma_potential_settled(
            p,
            ring(rc, i, j),
            lay.params,
            true,
            lay.kernel[flat(side(rc), i, j)],
            lay.kernel[flat(side(rc), k, l)],
        );
    }
    assert(holds(ring(rc, rc, rc), lay.kernel[flat(side(rc), rc, rc)]));
    assert(ring(rc, rc, rc) == 0) by (nonlinear_arith);
}

/// The terms felt, with their sum over all entries of the table.
proof fn lemma_feels<R>(val: spec_fn(R) -> real, lay: Layout<R>, s: Site, mask: Seq<Site>, k: nat)
    ensures
        tally(lay.feels(s, mask, k).len() as int, |i: int| val(lay.feels(s, mask, k)[i])) == tally(
            k as int,
            |i: int|
                if lay.felt(s, mask, i) {
                    val(lay.kernel[i])
                } else {
                    0 as real
                },
        ),
    decreases k,
{
    if k > 0 {
        lemma_feels(val, lay, s, mask, (k - 1) as nat);
        let less = lay.feels(s, mask, (k - 1) as nat);
        let more = lay.feels(s, mask, k);
        lemma_tally_same(less.len() as int, |i: int| val(less[i]), |i: int| val(more[i]));
    }
}

/// A charge feels every particle that is not left out, once.
pub proof fn lemma_surroundings<P: Physics>(p: P, val: spec_fn(P::Real) -> real, lay: Layout<P::Real>, s: Site, mask: Seq<Site>, r: P::Real)
    requires
        sound(p, val, lay),
        lay.board().on_board(s),
        summed(p, lay.surroundings(s, mask), r),
    ensures
        val(r) == tally(
            lay.pos.len() as int,
            |l: int|
                if mask.contains(lay.pos[l]) {
                    0 as real
                } else {
                    pull(val, lay, s, lay.pos[l])
                },
        ),
{
    lemma_summed_exact(p, val, lay.surroundings(s, mask), r);
    lemma_feels(val, lay, s, mask, lay.kernel.len());
    lemma_felt_particles(p, val, lay, s, mask);
}

/// The entries of the table that a charge feels, particle by particle.
pub proof fn lemma_felt_particles<P: Physics>(p: P, val: spec_fn(P::Real) -> real, lay: Layout<P::Real>, s: Site, mask: Seq<Site>)
    requires
        sound(p, val, lay),
        lay.board().on_board(s),
    ensures
        tally(
            lay.kernel.len() as int,
            |i: int|
                if lay.felt(s, mask, i) {
                    val(lay.kernel[i])
                } else {
                    0 as real
                },
        ) == tally(
            lay.pos.len() as int,
            |l: int|
                if mask.contains(lay.pos[l]) {
                    0 as real
                } else {
                    pull(val, lay, s, lay.pos[l])
                },
        ),
{
    let (h, w, rc, periodic) = (lay.params.h as int, lay.params.w as int, lay.rc as int, lay.params.periodic);
    let b = lay.board();
    let n = lay.pos.len() as int;
    let size = lay.kernel.len() as int;
    let sd = side(rc);
    let by_place = |k: int|
        if lay.felt(s, mask, k) {
            val(lay.kernel[k])
        } else {
            0 as real
        };
    let step_y = |l: int| gap(lay.pos[l].0 as int, s.0 as int, h, periodic);
    let step_x = |l: int| gap(lay.pos[l].1 as int, s.1 as int, w, periodic);
    let good = |l: int| !mask.contains(lay.pos[l]) && -rc <= step_y(l) <= rc && -rc <= step_x(l) <= rc;
    let e = |l: int| flat(sd, step_y(l) + rc, step_x(l) + rc);
    let g = |k: int| val(lay.kernel[k]);
    let by_number = |l: int|
        if mask.contains(lay.pos[l]) {
            0 as real
        } else {
            pull(val, lay, s, lay.pos[l])
        };
    assert forall|l: int| 0 <= l < n && good(l) implies 0 <= #[trigger] e(l) < size by {
        lemma_flat_bound(sd, sd, step_y(l) + rc, step_x(l) + rc);
    }
    assert forall|l: int, m: int| 0 <= l < m < n && good(l) && good(m) implies #[trigger] e(l) != #[trigger] e(m) by {
        if e(l) == e(m) {
            lemma_flat_injective(sd, step_y(l) + rc, step_x(l) + rc, step_y(m) + rc, step_x(m) + rc);
            let (t, u) = (b.pos[l], b.pos[m]);
            assert(b.on_board(t) && b.on_board(u));
            lemma_same_gap(t.0 as int, u.0 as int, s.0 as int, h, periodic);
            lemma_same_gap(t.1 as int, u.1 as int, s.1 as int, w, periodic);
            assert(t == u);
        }
    }
    assert forall|l: int| #![trigger by_number(l)] 0 <= l < n implies by_number(l) == (if good(l) {
        g(e(l))
    } else {
        0 as real
    }) by {
        let t = b.pos[l];
        assert(b.on_board(t));
        lemma_pull_alike(p, val, lay, s, t);
    }
    assert forall|k: int| 0 <= k < size implies lay.felt(s, mask, k) == #[trigger] hits(n, good, e, k) by {
        lemma_felt_is_hit(p, val, lay, s, mask, k, n, good, e);
    }
    assert forall|k: int| #![trigger by_place(k)] 0 <= k < size implies by_place(k) == (if hits(n, good, e, k) {
        g(k)
    } else {
        0 as real
    }) by {
        assert(lay.felt(s, mask, k) == hits(n, good, e, k));
    }
    lemma_tally_places(n, size, good, e, g, by_number, by_place);
}

/// Two lines the same gap from a third are one.
proof fn lemma_same_gap(a: int, b: int, s: int, n: int, periodic: bool)
    requires
        0 <= a < n,
        0 <= b < n,
        gap(a, s, n, periodic) == gap(b, s, n, periodic),
    ensures
        a == b,
{
    if periodic {
        lemma_gap_leads(a, s, n);
        lemma_gap_leads(b, s, n);
    }
}

/// An entry of the table is felt if a particle stands under it that is not left
/// out.
proof fn lemma_felt_is_hit<P: Physics>(
    p: P,
    val: spec_fn(P::Real) -> real,
    lay: Layout<P::Real>,
    s: Site,
    mask: Seq<Site>,
    k: int,
    n: int,
    good: spec_fn(int) -> bool,
    e: spec_fn(int) -> int,
)
    requires
        sound(p, val, lay),
        lay.board().on_board(s),
        0 <= k < lay.kernel.len(),
        n == lay.pos.len(),
        forall|l: int| #[trigger]
            good(l) == ({
                let dy = gap(lay.pos[l].0 as int, s.0 as int, lay.params.h as int, lay.params.periodic);
                let dx = gap(lay.pos[l].1 as int, s.1 as int, lay.params.w as int, lay.params.periodic);
                !mask.contains(lay.pos[l]) && -lay.rc <= dy <= lay.rc && -lay.rc <= dx <= lay.rc
            }),
        forall|l: int| #[trigger]
            e(l) == flat(
                side(lay.rc as int),
                gap(lay.pos[l].0 as int, s.0 as int, lay.params.h as int, lay.params.periodic) + lay.rc,
                gap(lay.pos[l].1 as int, s.1 as int, lay.params.w as int, lay.params.periodic) + lay.rc,
            ),
    ensures
        lay.felt(s, mask, k) == hits(n, good, e, k),
{
    let (h, w, rc, periodic) = (lay.params.h as int, lay.params.w as int, lay.rc as int, lay.params.periodic);
    let b = lay.board();
    let sd = side(rc);
    lemma_flat_inverse(sd, sd, k);
    let (i, j) = (k / sd, k % sd);
    let (y, x) = lay.near(s, k);
    if lay.felt(s, mask, k) {
        let t = (y as i32, x as i32);
        assert(b.on_board(t) && b.lit(t));
        let l = choose|l: int| 0 <= l < n && b.pos[l] == t;
        if periodic {
            lemma_gap_of_step(s.0 as int, i - rc, rc, h);
            lemma_gap_of_step(s.1 as int, j - rc, rc, w);
            assert(s.0 + i - rc == s.0 + (i - rc) && s.1 + j - rc == s.1 + (j - rc));
        }
        assert(gap(y, s.0 as int, h, periodic) == i - rc);
        assert(gap(x, s.1 as int, w, periodic) == j - rc);
        assert(good(l) && e(l) == k);
    }
    if hits(n, good, e, k) {
        let l = choose|l: int| 0 <= l < n && good(l) && #[trigger] e(l) == k;
        let t = b.pos[l];
        assert(b.on_board(t) && b.lit(t));
        let dy = gap(t.0 as int, s.0 as int, h, periodic);
        let dx = gap(t.1 as int, s.1 as int, w, periodic);
        lemma_flat_parts(sd, dy + rc, dx + rc);
        if periodic {
            lemma_gap_leads(t.0 as int, s.0 as int, h);
            lemma_gap_leads(t.1 as int, s.1 as int, w);
            assert(s.0 + i - rc == s.0 + dy && s.1 + j - rc == s.1 + dx);
        }
        assert((y, x) == (t.0 as int, t.1 as int));
    }
}

/// How the charges on two of `sites` act on each other.
spec fn between<R>(val: spec_fn(R) -> real, lay: Layout<R>, sites: Seq<Site>) -> spec_fn(int, int) -> real {
    |i: int, j: int| pull(val, lay, sites[i], sites[j])
}

/// The terms of row `i` from column `j` on.
spec fn row_from(f: spec_fn(int, int) -> real, i: int, j: int) -> spec_fn(int) -> real {
    |b: int|
        if j <= b {
            f(i, b)
        } else {
            0 as real
        }
}

/// The sums of the rows from `i` on, each from beside the diagonal.
spec fn rows_from(f: spec_fn(int, int) -> real, n: int, i: int) -> spec_fn(int) -> real {
    |a: int|
        if i <= a {
            tally(n, row_from(f, a, a + 1))
        } else {
            0 as real
        }
}

/// The interactions of pairs, in the order in which they are listed.
proof fn lemma_pairs<P: Physics>(
    p: P,
    val: spec_fn(P::Real) -> real,
    lay: Layout<P::Real>,
    sites: Seq<Site>,
    i: int,
    j: int,
    parts: Seq<P::Real>,
)
    requires
        sound(p, val, lay),
        all_on_board(lay.board(), sites),
        0 <= i < j,
        parts.len() == lay.pairs_from(sites, i, j).len(),
        forall|k: int|
            0 <= k < parts.len() ==> potential_is(p, lay.pairs_from(sites, i, j)[k], lay.params, true, #[trigger] parts[k]),
    ensures
        ({
            let (n, f) = (sites.len() as int, between(val, lay, sites));
            tally(parts.len() as int, |k: int| val(parts[k])) == if i < n {
                tally(n, row_from(f, i, j)) + tally(n, rows_from(f, n, i + 1))
            } else {
                0 as real
            }
        }),
    decreases sites.len() - i, sites.len() - j,
{
    let (n, f) = (sites.len() as int, between(val, lay, sites));
    let all = lay.pairs_from(sites, i, j);
    let vals = |k: int| val(parts[k]);
    if i >= n {
    } else if j >= n {
        lemma_pairs(p, val, lay, sites, i + 1, i + 2, parts);
        lemma_tally_zero(n, row_from(f, i, j));
        if i + 1 < n {
            lemma_tally_bump(n, i + 1, tally(n, row_from(f, i + 1, i + 2)), rows_from(f, n, i + 1), rows_from(f, n, i + 2));
        } else {
            lemma_tally_zero(n, rows_from(f, n, i + 1));
        }
    } else {
        let rest = parts.skip(1);
        let others = lay.pairs_from(sites, i, j + 1);
        assert(all =~= seq![lay.apart(sites[i], sites[j])] + others);
        assert forall|k: int| 0 <= k < rest.len() implies potential_is(p, others[k], lay.params, true, #[trigger] rest[k]) by {
            assert(rest[k] == parts[k + 1]);
            assert(others[k] == all[k + 1]);
        }
        lemma_pairs(p, val, lay, sites, i, j + 1, rest);
        assert(potential_is(p, all[0], lay.params, true, parts[0]));
        lemma_pull_is_potential(p, val, lay, sites[i], sites[j], parts[0]);
        lemma_tally_front(parts.len() as int, vals, |k: int| val(rest[k]));
        lemma_tally_bump(n, j, f(i, j), row_from(f, i, j), row_from(f, i, j + 1));
    }
}

/// Every pair makes two ordered ones.
pub proof fn lemma_pairs_twice<P: Physics>(p: P, val: spec_fn(P::Real) -> real, lay: Layout<P::Real>, sites: Seq<Site>, r: P::Real)
    requires
        sound(p, val, lay),
        all_on_board(lay.board(), sites),
        paired(p, lay.params, lay.pairs_from(sites, 0, 1), r),
    ensures
        crowd(val, lay, sites) == val(r) + val(r),
{
    let (n, f) = (sites.len() as int, between(val, lay, sites));
    let r2s = lay.pairs_from(sites, 0, 1);
    let parts = choose|parts: Seq<P::Real>| #[trigger]
        summed(p, parts, r) && parts.len() == r2s.len() && (forall|k: int|
            0 <= k < parts.len() ==> potential_is(p, r2s[k], lay.params, true, #[trigger] parts[k]));
    lemma_summed_exact(p, val, parts, r);
    lemma_pairs(p, val, lay, sites, 0, 1, parts);
    let above = |a: int, b: int|
        if a < b {
            f(a, b)
        } else {
            0 as real
        };
    let upper = |a: int| tally(n, |b: int| above(a, b));
    let lower = |a: int| tally(n, |b: int| above(b, a));
    let whole = |a: int| tally(n, |b: int| pull(val, lay, sites[a], sites[b]));
    if n > 0 {
        lemma_tally_bump(n, 0, tally(n, row_from(f, 0, 1)), rows_from(f, n, 0), rows_from(f, n, 1));
    }
    assert forall|a: int| 0 <= a < n implies #[trigger] upper(a) == rows_from(f, n, 0)(a) by {
        lemma_tally_same(n, |b: int| above(a, b), row_from(f, a, a + 1));
    }
    lemma_tally_same(n, upper, rows_from(f, n, 0));
    assert(tally(n, upper) == val(r));
    lemma_tally_swap(n, n, above);
    lemma_tally_same(n, |a: int| tally(n, |b: int| above(a, b)), upper);
    lemma_tally_same(n, |b: int| tally(n, |a: int| above(a, b)), lower);
    assert forall|a: int| 0 <= a < n implies #[trigger] whole(a) == upper(a) + lower(a) by {
        let row = |b: int| pull(val, lay, sites[a], sites[b]);
        assert forall|b: int| 0 <= b < n implies #[trigger] row(b) == (|b: int| above(a, b))(b) + (|b: int| above(b, a))(b) by {
            assert(lay.board().on_board(sites[a]) && lay.board().on_board(sites[b]));
            lemma_pull_alike(p, val, lay, sites[a], sites[b]);
        }
        lemma_tally_plus(n, |b: int| above(a, b), |b: int| above(b, a), row);
    }
    lemma_tally_plus(n, upper, lower, whole);
    lemma_tally_same(n, |k: int| tally(n, |l: int| pull(val, lay, sites[k], sites[l])), whole);
}

/// The interaction among the particles that stay.
spec fn stayers<R>(val: spec_fn(R) -> real, lay: Layout<R>, moves: Plan) -> real {
    tally(
        lay.pos.len() as int,
        |k: int|
            if moves.takes(k) {
                0 as real
            } else {
                with_stayers(val, lay, moves, lay.pos[k])
            },
    )
}

/// The interaction of a charge on `s` with the particles that stay.
spec fn with_stayers<R>(val: spec_fn(R) -> real, lay: Layout<R>, moves: Plan, s: Site) -> real {
    tally(
        lay.pos.len() as int,
        |l: int|
            if moves.takes(l) {
                0 as real
            } else {
                pull(val, lay, s, lay.pos[l])
            },
    )
}

/// A sum over the particles that move is a sum over the moves.
proof fn lemma_movers(lay_len: int, moves: Plan, g: spec_fn(int) -> real, by_particle: spec_fn(int) -> real, by_move: spec_fn(int) -> real)
    requires
        forall|i: int| 0 <= i < moves.idx.len() ==> #[trigger] moves.idx[i] < lay_len,
        forall|i: int, j: int| 0 <= i < j < moves.idx.len() ==> moves.idx[i] != moves.idx[j],
        forall|k: int|
            #![trigger by_particle(k)]
            0 <= k < lay_len ==> by_particle(k) == (if moves.takes(k) {
                g(k)
            } else {
                0 as real
            }),
        forall|i: int| #![trigger by_move(i)] 0 <= i < moves.idx.len() ==> by_move(i) == g(moves.idx[i] as int),
    ensures
        tally(lay_len, by_particle) == tally(moves.idx.len() as int, by_move),
{
    let m = moves.idx.len() as int;
    let good = |i: int| true;
    let e = |i: int| moves.idx[i] as int;
    assert forall|k: int| 0 <= k < lay_len implies moves.takes(k) == #[trigger] hits(m, good, e, k) by {
        if moves.takes(k) {
            let i = choose|i: int| 0 <= i < m && #[trigger] moves.idx[i] == k;
            assert(e(i) == k);
        }
        if hits(m, good, e, k) {
            let i = choose|i: int| 0 <= i < m && good(i) && #[trigger] e(i) == k;
            assert(moves.idx[i] == k);
        }
    }
    assert forall|k: int| #![trigger by_particle(k)] 0 <= k < lay_len implies by_particle(k) == (if hits(m, good, e, k) {
        g(k)
    } else {
        0 as real
    }) by {
        assert(moves.takes(k) == hits(m, good, e, k));
    }
    lemma_tally_places(m, lay_len, good, e, g, by_move, by_particle);
}

/// The movers stand on the old sites, and no others do.
proof fn lemma_mask(b: Board, moves: Plan, l: int)
    requires
        b.wf(),
        moves.legal(b),
        0 <= l < b.pos.len(),
    ensures
        moves.old.contains(b.pos[l]) == moves.takes(l),
{
    if moves.takes(l) {
        let i = choose|i: int| 0 <= i < moves.idx.len() && #[trigger] moves.idx[i] == l;
        assert(moves.old[i] == b.pos[l]);
    }
    if moves.old.contains(b.pos[l]) {
        let i = choose|i: int| 0 <= i < moves.old.len() && moves.old[i] == b.pos[l];
        let k = moves.idx[i] as int;
        assert(moves.old[i] == b.pos[k]);
        if k < l {
            assert(b.pos[k] != b.pos[l]);
        } else if l < k {
            assert(b.pos[l] != b.pos[k]);
        }
        assert(moves.idx[i] == l);
    }
}

/// The interaction of all particles, the movers of which stand on `sites`: that
/// of the stayers, and twice what binds the movers.
proof fn lemma_crowd_by_movers<P: Physics>(
    p: P,
    val: spec_fn(P::Real) -> real,
    lay: Layout<P::Real>,
    moves: Plan,
    pos: Seq<Site>,
    sites: Seq<Site>,
    e: P::Real,
)
    requires
        sound(p, val, lay),
        moves.legal(lay.board()),
        pos.len() == lay.pos.len(),
        all_on_board(lay.board(), pos),
        forall|k: int| 0 <= k < pos.len() && !moves.takes(k) ==> #[trigger] pos[k] == lay.pos[k],
        sites.len() == moves.idx.len(),
        forall|i: int| 0 <= i < sites.len() ==> #[trigger] sites[i] == pos[moves.idx[i] as int],
        bound_by(p, lay, sites, moves.old, e),
    ensures
        crowd(val, lay, pos) == stayers(val, lay, moves) + val(e) + val(e),
{
    let b = lay.board();
    let n = pos.len() as int;
    let m = sites.len() as int;
    let f = |k: int, l: int| pull(val, lay, pos[k], pos[l]);
    assert forall|i: int| 0 <= i < m implies b.on_board(#[trigger] sites[i]) by {
        assert(moves.idx[i] < n);
        assert(b.on_board(pos[moves.idx[i] as int]));
    }
    let (c, q) = choose|c: P::Real, q: P::Real|
        crowded(p, lay, sites, moves.old, c) && paired(p, lay.params, lay.pairs_from(sites, 0, 1), q) && #[trigger] call_ensures(
            P::plus,
            (&p, c, q),
            e,
        );
    lemma_pairs_twice(p, val, lay, sites, q);

    // What stands in a row, by whether the other particle moves.
    let stay = |k: int, l: int|
        if moves.takes(l) {
            0 as real
        } else {
            f(k, l)
        };
    let go = |k: int, l: int|
        if moves.takes(l) {
            f(k, l)
        } else {
            0 as real
        };
    let to_stay = |k: int| tally(n, |l: int| stay(k, l));
    let to_go = |k: int| tally(n, |l: int| go(k, l));
    let whole = |k: int| tally(n, |l: int| pull(val, lay, pos[k], pos[l]));
    assert forall|k: int| 0 <= k < n implies #[trigger] whole(k) == to_stay(k) + to_go(k) by {
        lemma_tally_plus(n, |l: int| stay(k, l), |l: int| go(k, l), |l: int| pull(val, lay, pos[k], pos[l]));
    }
    lemma_tally_plus(n, to_stay, to_go, whole);
    lemma_tally_same(n, |k: int| tally(n, |l: int| pull(val, lay, pos[k], pos[l])), whole);

    // Stayers with stayers, and movers with stayers.
    let still = |k: int|
        if moves.takes(k) {
            0 as real
        } else {
            to_stay(k)
        };
    let across = |k: int|
        if moves.takes(k) {
            to_stay(k)
        } else {
            0 as real
        };
    lemma_tally_plus(n, still, across, to_stay);
    let kept = |k: int|
        if moves.takes(k) {
            0 as real
        } else {
            with_stayers(val, lay, moves, lay.pos[k])
        };
    assert forall|k: int| 0 <= k < n implies #[trigger] to_stay(k) == with_stayers(val, lay, moves, pos[k]) by {
        let one = |l: int| stay(k, l);
        let two = |l: int|
            if moves.takes(l) {
                0 as real
            } else {
                pull(val, lay, pos[k], lay.pos[l])
            };
        assert forall|l: int| 0 <= l < n implies #[trigger] one(l) == two(l) by {
            if !moves.takes(l) {
                assert(pos[l] == lay.pos[l]);
            }
        }
        lemma_tally_same(n, one, two);
    }
    assert forall|k: int| 0 <= k < n implies #[trigger] still(k) == kept(k) by {
        assert(to_stay(k) == with_stayers(val, lay, moves, pos[k]));
        if !moves.takes(k) {
            assert(pos[k] == lay.pos[k]);
        }
    }
    lemma_tally_same(n, still, kept);
    assert(tally(n, still) == stayers(val, lay, moves));
    assert(tally(n, across) == val(c)) by {
        let parts = choose|parts: Seq<P::Real>| #[trigger]
            summed(p, parts, c) && parts.len() == sites.len() && (forall|i: int|
                0 <= i < sites.len() ==> summed(p, lay.surroundings(sites[i], moves.old), #[trigger] parts[i]));
        lemma_summed_exact(p, val, parts, c);
        let by_move = |i: int| val(parts[i]);
        assert forall|i: int| #![trigger by_move(i)] 0 <= i < m implies by_move(i) == to_stay(moves.idx[i] as int) by {
            let k = moves.idx[i] as int;
            assert(sites[i] == pos[k]);
            assert(summed(p, lay.surroundings(sites[i], moves.old), parts[i]));
            assert(b.on_board(sites[i]));
            lemma_surroundings(p, val, lay, sites[i], moves.old, parts[i]);
            let one = |l: int|
                if moves.old.contains(lay.pos[l]) {
                    0 as real
                } else {
                    pull(val, lay, sites[i], lay.pos[l])
                };
            let two = |l: int|
                if moves.takes(l) {
                    0 as real
                } else {
                    pull(val, lay, sites[i], lay.pos[l])
                };
            assert forall|l: int| 0 <= l < n implies #[trigger] one(l) == two(l) by {
                lemma_mask(b, moves, l);
            }
            lemma_tally_same(n, one, two);
            assert(to_stay(k) == with_stayers(val, lay, moves, pos[k]));
        }
        lemma_movers(n, moves, to_stay, across, by_move);
    }

    // All with movers: stayers with movers as movers with stayers.
    let met = |k: int|
        if moves.takes(k) {
            0 as real
        } else {
            to_go(k)
        };
    let among = |k: int|
        if moves.takes(k) {
            to_go(k)
        } else {
            0 as real
        };
    lemma_tally_plus(n, met, among, to_go);
    assert(tally(n, met) == tally(n, across)) by {
        let mixed = |k: int, l: int|
            if !moves.takes(k) && moves.takes(l) {
                f(k, l)
            } else {
                0 as real
            };
        lemma_tally_swap(n, n, mixed);
        let rows = |k: int| tally(n, |l: int| mixed(k, l));
        let columns = |l: int| tally(n, |k: int| mixed(k, l));
        assert forall|k: int| 0 <= k < n implies #[trigger] rows(k) == met(k) by {
            if moves.takes(k) {
                lemma_tally_zero(n, |l: int| mixed(k, l));
            } else {
                lemma_tally_same(n, |l: int| mixed(k, l), |l: int| go(k, l));
            }
        }
        assert forall|l: int| 0 <= l < n implies #[trigger] columns(l) == across(l) by {
            let column = |k: int| mixed(k, l);
            if moves.takes(l) {
                assert forall|k: int| 0 <= k < n implies #[trigger] column(k) == (|k: int| stay(l, k))(k) by {
                    assert(b.on_board(pos[k]) && b.on_board(pos[l]));
                    lemma_pull_alike(p, val, lay, pos[k], pos[l]);
                }
                lemma_tally_same(n, column, |k: int| stay(l, k));
            } else {
                lemma_tally_zero(n, column);
            }
        }
        lemma_tally_same(n, rows, met);
        lemma_tally_same(n, columns, across);
        lemma_tally_same(n, |k: int| tally(n, |l: int| mixed(k, l)), rows);
        lemma_tally_same(n, |l: int| tally(n, |k: int| mixed(k, l)), columns);
    }
    assert(tally(n, among) == crowd(val, lay, sites)) by {
        let by_move = |i: int| tally(m, |j: int| pull(val, lay, sites[i], sites[j]));
        assert forall|i: int| #![trigger by_move(i)] 0 <= i < m implies by_move(i) == to_go(moves.idx[i] as int) by {
            let k = moves.idx[i] as int;
            assert(sites[i] == pos[k]);
            let g = |l: int| f(k, l);
            let inner = |j: int| pull(val, lay, sites[i], sites[j]);
            assert forall|j: int| #![trigger inner(j)] 0 <= j < m implies inner(j) == g(moves.idx[j] as int) by {
                assert(sites[j] == pos[moves.idx[j] as int]);
            }
            lemma_movers(n, moves, g, |l: int| go(k, l), inner);
        }
        lemma_movers(n, moves, to_go, among, by_move);
        lemma_tally_same(m, |k: int| tally(m, |l: int| pull(val, lay, sites[k], sites[l])), by_move);
    }
}

/// The fixed potential under all particles changes by what it changes by under
/// the movers.
proof fn lemma_held_by_movers<P: Physics>(p: P, val: spec_fn(P::Real) -> real, lay: Layout<P::Real>, moves: Plan, du: P::Real)
    requires
        sound(p, val, lay),
        moves.legal(lay.board()),
        shifted(p, lay, moves.old, moves.new, du),
    ensures
        held(val, lay, lay.board().after(moves).pos) == held(val, lay, lay.pos) + val(du),
{
    let b = lay.board();
    let n = lay.pos.len() as int;
    let m = moves.idx.len() as int;
    let pos = b.after(moves).pos;
    let (from, to) = (moves.old, moves.new);
    let parts = choose|parts: Seq<P::Real>| #[trigger]
        summed(p, parts, du) && parts.len() == from.len() && (forall|i: int|
            0 <= i < from.len() ==> call_ensures(
                P::minus,
                (&p, lay.u_edge[lay.board().at(to[i])], lay.u_edge[lay.board().at(from[i])]),
                #[trigger] parts[i],
            ));
    lemma_summed_exact(p, val, parts, du);
    let before = |k: int| val(lay.u_edge[lay.board().at(lay.pos[k])]);
    let after = |k: int| val(lay.u_edge[lay.board().at(pos[k])]);
    let g = |k: int| after(k) - before(k);
    let change = |k: int|
        if moves.takes(k) {
            g(k)
        } else {
            0 as real
        };
    let by_move = |i: int| val(parts[i]);
    assert forall|i: int| #![trigger by_move(i)] 0 <= i < m implies by_move(i) == g(moves.idx[i] as int) by {
        let k = moves.idx[i] as int;
        assert(moves.old[i] == b.pos[k]);
        assert(moves.takes(k));
        assert(moves.idx[moves.slot(k)] == k);
        assert(pos[k] == moves.new[i]);
        assert(call_ensures(
            P::minus,
            (&p, lay.u_edge[lay.board().at(to[i])], lay.u_edge[lay.board().at(from[i])]),
            parts[i],
        ));
    }
    lemma_movers(n, moves, g, change, by_move);
    lemma_tally_plus(n, before, change, after);
    lemma_tally_same(n, |k: int| val(lay.u_edge[lay.board().at(lay.pos[k])]), before);
    lemma_tally_same(n, |k: int| val(lay.u_edge[lay.board().at(pos[k])]), after);
}

/// A layout once moves are made.
pub open spec fn moved<R>(lay: Layout<R>, moves: Plan) -> Layout<R> {
    Layout { occ: lay.board().after(moves).occ, pos: lay.board().after(moves).pos, ..lay }
}

/// Where the arithmetic is exact, moves cost what the energy of the gas changes
/// by when they are made.
pub proof fn law_moves_cost_the_change_of_energy<P: Physics>(
    p: P,
    val: spec_fn(P::Real) -> real,
    lay: Layout<P::Real>,
    moves: Plan,
    de: P::Real,
)
    requires
        sound(p, val, lay),
        moves.legal(lay.board()),
        costs(p, lay, moves, de),
    ensures
        energy(val, moved(lay, moves)) == energy(val, lay) + val(de),
{
    let b = lay.board();
    let next = moved(lay, moves);
    let n = lay.pos.len() as int;
    let (e_old, e_new, du) = choose|e_old: P::Real, e_new: P::Real, du: P::Real| #[trigger]
        costs_by(p, lay, moves, de, e_old, e_new, du);
    law_moves_conserve_particles(b, moves);
    assert forall|i: int| 0 <= i < n implies b.on_board(#[trigger] lay.pos[i]) by {
        assert(b.on_board(b.pos[i]));
    }
    assert forall|i: int| 0 <= i < n implies b.on_board(#[trigger] next.pos[i]) by {
        assert(b.after(moves).on_board(b.after(moves).pos[i]));
    }
    assert forall|i: int| 0 <= i < moves.idx.len() implies #[trigger] moves.new[i] == next.pos[moves.idx[i] as int] by {
        let k = moves.idx[i] as int;
        assert(moves.takes(k));
        assert(moves.idx[moves.slot(k)] == k);
    }
    lemma_crowd_by_movers(p, val, lay, moves, lay.pos, moves.old, e_old);
    lemma_crowd_by_movers(p, val, lay, moves, next.pos, moves.new, e_new);
    lemma_held_by_movers(p, val, lay, moves, du);
    lemma_same_tables(val, lay, next, next.pos);
    let (square, change) = choose|square: P::Real, change: P::Real| #[trigger]
        weighed(p, square, change, lay.params.charge, du, de) && call_ensures(
            P::times,
            (&p, lay.params.charge, lay.params.charge),
            square,
        ) && call_ensures(P::minus, (&p, e_new, e_old), change);
    let q = val(lay.params.charge);
    let (x, y) = (crowd(val, lay, lay.pos), crowd(val, lay, next.pos));
    let (u, v) = (held(val, lay, lay.pos), held(val, lay, next.pos));
    let d = val(change);
    assert(q * q * (y / 2 as real) + q * v == q * q * (x / 2 as real) + q * u + (q * q * d + q * (v - u))) by (nonlinear_arith)
        requires
            y == x + d + d,
    ;
}

/// Interactions depend on the tables alone.
proof fn lemma_same_tables<R>(val: spec_fn(R) -> real, one: Layout<R>, two: Layout<R>, sites: Seq<Site>)
    requires
        one.params == two.params,
        one.kernel == two.kernel,
        one.rc == two.rc,
        one.u_edge == two.u_edge,
    ensures
        crowd(val, one, sites) == crowd(val, two, sites),
        held(val, one, sites) == held(val, two, sites),
{
    let n = sites.len() as int;
    lemma_same_crowd(val, one, two, sites);
    lemma_tally_same(
        n,
        |k: int| val(one.u_edge[one.board().at(sites[k])]),
        |k: int| val(two.u_edge[two.board().at(sites[k])]),
    );
}

/// Interactions between particles depend on the table alone.
pub proof fn lemma_same_crowd<R>(val: spec_fn(R) -> real, one: Layout<R>, two: Layout<R>, sites: Seq<Site>)
    requires
        one.params == two.params,
        one.kernel == two.kernel,
        one.rc == two.rc,
    ensures
        crowd(val, one, sites) == crowd(val, two, sites),
{
    let n = sites.len() as int;
    let a = |k: int| tally(n, |l: int| pull(val, one, sites[k], sites[l]));
    let b = |k: int| tally(n, |l: int| pull(val, two, sites[k], sites[l]));
    assert forall|k: int| 0 <= k < n implies #[trigger] a(k) == b(k) by {
        lemma_tally_same(n, |l: int| pull(val, one, sites[k], sites[l]), |l: int| pull(val, two, sites[k], sites[l]));
    }
    lemma_tally_same(n, a, b);
}

/// An iteration keeps the running energy that of the gas.
proof fn lemma_step_keeps_energy<P: Physics>(
    p: P,
    val: spec_fn(P::Real) -> real,
    gas: Gas<P::Real>,
    after: Gas<P::Real>,
    took: bool,
)
    requires
        sound(p, val, gas.layout),
        stepped(p, gas, after, took),
    ensures
        sound(p, val, after.layout),
        val(after.energy) - energy(val, after.layout) == val(gas.energy) - energy(val, gas.layout),
{
    if gas.layout.pos.len() > 0 {
        let b = gas.layout.board();
        let moves = choose|moves: Plan| #[trigger]
            moves.dealt(b, gas.deal()) && if moves.idx.len() == 0 {
                after == gas.turned().stalled().read_to(gas.position + 3 * gas.deal().batch) && !took
            } else {
                judged(p, gas, moves, after, took)
            };
        if moves.idx.len() > 0 {
            let (de, down) = choose|de: P::Real, down: bool| #[trigger] judged_by(p, gas, moves, after, took, de, down);
            if took {
                law_dealt_moves_are_legal(b, gas.deal(), moves);
                law_moves_conserve_particles(b, moves);
                law_moves_cost_the_change_of_energy(p, val, gas.layout, moves, de);
                assert(after.layout == moved(gas.layout, moves));
                assert(after.layout.board() == b.after(moves));
            }
        }
    }
}

/// Annealing keeps account of the energy: where the arithmetic is exact, the
/// running energy stays as far from that of the gas as it was at the start.
pub proof fn law_annealing_keeps_account_of_the_energy<P: Physics>(
    p: P,
    val: spec_fn(P::Real) -> real,
    gas: Gas<P::Real>,
    n: nat,
    after: Gas<P::Real>,
)
    requires
        sound(p, val, gas.layout),
        ran(p, gas, n, after),
    ensures
        sound(p, val, after.layout),
        val(after.energy) - energy(val, after.layout) == val(gas.energy) - energy(val, gas.layout),
    decreases n,
{
    if n > 0 {
        let (mid, took) = choose|mid: Gas<P::Real>, took: bool| #[trigger]
            stepped(p, mid, after, took) && ran(p, gas, (n - 1) as nat, mid);
        law_annealing_keeps_account_of_the_energy(p, val, gas, (n - 1) as nat, mid);
        lemma_step_keeps_energy(p, val, mid, after, took);
    }
}

/// The running energy is the total: a gas that starts with its total energy on
/// the account has, however long it is annealed, the energy on the account that
/// working it out afresh would come to.
pub proof fn law_running_energy_is_the_total<P: Physics>(
    p: P,
    val: spec_fn(P::Real) -> real,
    gas: Gas<P::Real>,
    n: nat,
    after: Gas<P::Real>,
    total: P::Real,
)
    requires
        sound(p, val, gas.layout),
        totals(p, gas.layout, gas.energy),
        ran(p, gas, n, after),
        totals(p, after.layout, total),
    ensures
        val(after.energy) == val(total),
{
    law_annealing_keeps_account_of_the_energy(p, val, gas, n, after);
    law_total_energy_is_that_of_the_pairs(p, val, gas.layout, gas.energy);
    law_total_energy_is_that_of_the_pairs(p, val, after.layout, total);
}

/// What lies on lit cells, with its sum over all cells of the patch.
proof fn lemma_on_lit<R>(val: spec_fn(R) -> real, laid: Laid<R>, w: int, occ: Seq<bool>, n: nat)
    ensures
        tally(on_lit(laid, w, occ, n).len() as int, |k: int| val(on_lit(laid, w, occ, n)[k])) == tally(
            n as int,
            |t: int|
                if occ[laid.under(w, t / laid.cols@.len() as int, t % laid.cols@.len() as int)] {
                    val(laid.cells@[t])
                } else {
                    0 as real
                },
        ),
    decreases n,
{
    if n > 0 {
        lemma_on_lit(val, laid, w, occ, (n - 1) as nat);
        let less = on_lit(laid, w, occ, (n - 1) as nat);
        let more = on_lit(laid, w, occ, n);
        lemma_tally_same(less.len() as int, |k: int| val(less[k]), |k: int| val(more[k]));
    }
}

/// A change of the fixed potential is worth to the particles what it changes
/// under them.
proof fn lemma_worth<P: Physics>(
    p: P,
    val: spec_fn(P::Real) -> real,
    lay: Layout<P::Real>,
    u_edge: Seq<P::Real>,
    laid: Laid<P::Real>,
    de: P::Real,
)
    requires
        sound(p, val, lay),
        lay.u_edge.len() == lay.params.h * lay.params.w,
        laid.wf(lay.params.h as int, lay.params.w as int),
        merged(plus_step(p), lay.params.w as int, laid, lay.u_edge, u_edge),
        worth(p, lay, laid, de),
    ensures
        energy(val, (Layout { u_edge, ..lay })) == energy(val, lay) + val(de),
{
    let b = lay.board();
    let (h, w) = (b.h, b.w);
    let n = lay.pos.len() as int;
    let next = Layout { u_edge, ..lay };
    let q = val(lay.params.charge);
    let (nr, nc) = (laid.rows@.len() as int, laid.cols@.len() as int);
    let size = laid.cells@.len() as int;
    let under = on_lit(laid, w, lay.occ, laid.cells@.len());
    let parts = choose|parts: Seq<P::Real>| #[trigger]
        summed(p, parts, de) && parts.len() == under.len() && (forall|k: int|
            0 <= k < parts.len() ==> call_ensures(P::times, (&p, lay.params.charge, under[k]), #[trigger] parts[k]));
    lemma_summed_exact(p, val, parts, de);
    lemma_on_lit(val, laid, w, lay.occ, laid.cells@.len());
    let taken = |k: int| val(under[k]);
    lemma_tally_times(under.len() as int, q, taken, |k: int| val(parts[k]));

    let e = |t: int| laid.under(w, t / nc, t % nc);
    let good = |t: int| lay.occ[e(t)];
    let g = |c: int| val(u_edge[c]) - val(lay.u_edge[c]);
    let by_patch = |t: int|
        if lay.occ[laid.under(w, t / laid.cols@.len() as int, t % laid.cols@.len() as int)] {
            val(laid.cells@[t])
        } else {
            0 as real
        };
    let by_cell = |c: int|
        if lay.occ[c] {
            g(c)
        } else {
            0 as real
        };
    assert forall|t: int| 0 <= t < size implies {
        &&& 0 <= #[trigger] e(t) < h * w
        &&& laid.has(t / nc, t % nc)
        &&& laid.at(t / nc, t % nc) == laid.cells@[t]
    } by {
        lemma_flat_inverse(nr, nc, t);
        let (y, x) = (laid.rows@[t / nc] as int, laid.cols@[t % nc] as int);
        lemma_flat_bound(h, w, y, x);
    }
    assert forall|t: int, u: int| 0 <= t < u < size && good(t) && good(u) implies #[trigger] e(t) != #[trigger] e(u) by {
        if e(t) == e(u) {
            lemma_under_distinct(laid, h, w, t / nc, t % nc, u / nc, u % nc);
            lemma_flat_inverse(nr, nc, t);
            lemma_flat_inverse(nr, nc, u);
        }
    }
    assert forall|t: int| #![trigger by_patch(t)] 0 <= t < size implies by_patch(t) == (if good(t) {
        g(e(t))
    } else {
        0 as real
    }) by {
        assert(0 <= e(t) < h * w);
        let (i, j) = (t / nc, t % nc);
        assert(laid.has(i, j));
        assert(plus_step(p)(lay.u_edge[laid.under(w, i, j)], laid.at(i, j), u_edge[laid.under(w, i, j)]));
        assert(call_ensures(P::plus, (&p, lay.u_edge[laid.under(w, i, j)], laid.at(i, j)), u_edge[laid.under(w, i, j)]));
    }
    assert forall|c: int| #![trigger by_cell(c)] 0 <= c < h * w implies by_cell(c) == (if hits(size, good, e, c) {
        g(c)
    } else {
        0 as real
    }) by {
        if hits(size, good, e, c) {
            let t = choose|t: int| 0 <= t < size && good(t) && #[trigger] e(t) == c;
            assert(lay.occ[c]);
        } else if lay.occ[c] {
            if laid.covers(w, c) {
                let (i, j) = choose|i: int, j: int| #[trigger] laid.has(i, j) && laid.under(w, i, j) == c;
                lemma_flat_bound(nr, nc, i, j);
                lemma_flat_parts(nc, i, j);
                assert(e(flat(nc, i, j)) == c);
                assert(good(flat(nc, i, j)));
            }
            assert(u_edge[c] == lay.u_edge[c]);
        }
    }
    lemma_tally_places(size, h * w, good, e, g, by_patch, by_cell);
    let by_particle = |k: int| g(b.at(b.pos[k]));
    lemma_lit_cells(b, g, by_cell, by_particle);
    let before = |k: int| val(lay.u_edge[lay.board().at(lay.pos[k])]);
    let after = |k: int| val(next.u_edge[next.board().at(next.pos[k])]);
    lemma_tally_plus(n, before, by_particle, after);
    lemma_tally_same(n, |k: int| val(lay.u_edge[lay.board().at(lay.pos[k])]), before);
    lemma_tally_same(n, |k: int| val(next.u_edge[next.board().at(next.pos[k])]), after);
    lemma_same_crowd(val, lay, next, lay.pos);
    let (x, u, d) = (crowd(val, lay, lay.pos), held(val, lay, lay.pos), tally(size, by_patch));
    assert(held(val, next, lay.pos) == u + d);
    assert(val(de) == q * d);
    assert(q * q * (x / 2 as real) + q * (u + d) == q * q * (x / 2 as real) + q * u + q * d) by (nonlinear_arith);
}

/// Painting keeps account of the energy: where the arithmetic is exact, a gas
/// whose running energy is its energy keeps it so under the brush.
pub proof fn law_painting_keeps_account_of_the_energy<P: Physics>(
    p: P,
    val: spec_fn(P::Real) -> real,
    s0: Sim<P::Real>,
    s1: Sim<P::Real>,
    points: Seq<[P::Real; 2]>,
    brush: Brush<P::Real>,
    first: bool,
    r: Result<PaintReport<P::Real>, TooLarge>,
)
    requires
        s0.wf(),
        sound(p, val, s0.layout()),
        val(s0.energy) == energy(val, s0.layout()),
        paints(p, s0, s1, points, brush, first, r),
    ensures
        sound(p, val, s1.layout()),
        val(s1.energy) == energy(val, s1.layout()),
{
    let stroke = choose|stroke: Result<Option<StrokePatch<P::Real>>, TooLarge>| #[trigger]
        brushed(p, points, brush, first, stroke) && match stroke {
            Err(_) => r is Err && s1 == s0,
            Ok(None) => s1 == s0 && r is Ok && blank_report(p, r->Ok_0),
            Ok(Some(patch)) => lays(p, s0, s1, patch, brush, first, r),
        };
    if s1 != s0 {
        let patch = stroke->Ok_0->0;
        let report = r->Ok_0;
        if crate::paint::hits(s0, patch) {
            let (q, c, u, bs) = choose|q: Laid<P::Real>, c: Laid<P::Real>, u: Laid<P::Real>, bs: Seq<Laid<bool>>| #[trigger]
                laid_down_by(p, s0, s1, patch, brush, first, report, q, c, u, bs);
            let (rp, table, du) = choose|rp: usize, table: Seq<P::Real>, du: Seq<P::Real>| #[trigger]
                repotentialed_by(p, s0, s1, patch, brush, u, report.de_field, rp, table, du);
            let mid = Layout { u_edge: s1.u_edge@, ..s0.layout() };
            assert(s1.blocked@.len() == s0.blocked@.len());
            lemma_same_board(s0, s1);
            if hits_wide(s0, patch, rp as int) {
                let (h, w) = (s0.params.h as int, s0.params.w as int);
                lemma_placed_wf(
                    du,
                    patch.y0 - rp,
                    patch.x0 - rp,
                    patch.ph + 2 * rp,
                    patch.pw + 2 * rp,
                    h,
                    w,
                    s0.params.periodic,
                    u,
                );
                lemma_worth(p, val, s0.layout(), s1.u_edge@, u, report.de_field);
            } else {
                law_total_energy_is_that_of_the_pairs(p, val, mid, s1.energy);
            }
            lemma_same_tables(val, mid, s1.layout(), s1.pos@);
        }
    }
}

/// A gas starts out with its energy on the account.
pub proof fn law_a_gas_starts_with_its_energy<P: Physics>(
    p: P,
    val: spec_fn(P::Real) -> real,
    params: Params<P::Real>,
    cov: Seq<P::Real>,
    occ0: Seq<bool>,
    line_density: P::Real,
    line_blocks: bool,
    sim: Sim<P::Real>,
)
    requires
        exact(p, val),
        potentials_settled(p),
        set_up(p, params, cov, occ0, line_density, line_blocks, sim),
        sim.wf(),
        within_reach(p, params, sim.rc as int),
        has_room(params.h as int, params.w as int, sim.rc as int, params.periodic),
    ensures
        sound(p, val, sim.layout()),
        val(sim.energy) == energy(val, sim.layout()),
{
    law_total_energy_is_that_of_the_pairs(p, val, sim.layout(), sim.energy);
}

/// Undo puts the energy of the gas on the account.
pub proof fn law_undo_keeps_account_of_the_energy<P: Physics>(
    p: P,
    val: spec_fn(P::Real) -> real,
    s0: Sim<P::Real>,
    s1: Sim<P::Real>,
)
    requires
        sound(p, val, s0.layout()),
        undone(p, s0, s1),
        s1.wf(),
    ensures
        sound(p, val, s1.layout()),
        val(s1.energy) == energy(val, s1.layout()),
{
    let mid = choose|mid: Seq<P::Real>| #[trigger] undone_by(p, s0, s1, mid);
    law_total_energy_is_that_of_the_pairs(p, val, s1.layout(), s1.energy);
}

/// Wiping all paint off puts the energy of the gas on the account.
pub proof fn law_clearing_keeps_account_of_the_energy<P: Physics>(
    p: P,
    val: spec_fn(P::Real) -> real,
    s0: Sim<P::Real>,
    s1: Sim<P::Real>,
)
    requires
        sound(p, val, s0.layout()),
        cleared(p, s0, s1),
        s1.wf(),
    ensures
        sound(p, val, s1.layout()),
        val(s1.energy) == energy(val, s1.layout()),
{
    law_total_energy_is_that_of_the_pairs(p, val, s1.layout(), s1.energy);
}

} // verus!

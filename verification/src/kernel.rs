//! Square tables of a potential around a charge.

use crate::formulas::{
    casting, castings_settled, casts, lemma_casting_settled, lemma_potential_settled, potential, potential_is,
    potentials_settled,
};
use crate::lattice::{flat, grid};
use crate::physics::{Params, Physics};
use crate::terms::{reach, reach_is};
use vstd::prelude::*;

verus! {

/// The side of a table that reaches `rc` cells to every side.
pub open spec fn side(rc: int) -> int {
    2 * rc + 1
}

/// A table that reaches `rc` cells fits the machine.
pub open spec fn table_fits(rc: int) -> bool {
    side(rc) * side(rc) <= usize::MAX
}

/// The square of the distance from the centre to the cell in row `i` and column
/// `j` of a table that reaches `rc` cells.
pub open spec fn ring(rc: int, i: int, j: int) -> int {
    (i - rc) * (i - rc) + (j - rc) * (j - rc)
}

/// A table holds a value for each of its cells that `holds` of the square of
/// the cell's distance.
pub open spec fn radial<R>(table: Seq<R>, rc: int, holds: spec_fn(int, R) -> bool) -> bool {
    &&& table.len() == side(rc) * side(rc)
    &&& forall|i: int, j: int|
        0 <= i < side(rc) && 0 <= j < side(rc) ==> holds(ring(rc, i, j), #[trigger] table[flat(side(rc), i, j)])
}

/// Whether a table that reaches `rc` cells fits the machine.
pub fn has_table(rc: usize) -> (r: bool)
    ensures
        r == table_fits(rc as int),
{
    proof {
        if 2 * rc > usize::MAX || 2 * rc + 1 > usize::MAX {
            lemma_side_in_square(rc as int);
        }
    }
    match rc.checked_mul(2) {
        None => false,
        Some(twice) => match twice.checked_add(1) {
            None => false,
            Some(n) => n.checked_mul(n).is_some(),
        },
    }
}

proof fn lemma_side_in_square(rc: int)
    requires
        rc >= 0,
    ensures
        side(rc) <= side(rc) * side(rc),
        rc <= side(rc) * side(rc),
{
    let n = side(rc);
    assert(n <= n * n) by (nonlinear_arith)
        requires
            n >= 1,
    ;
}

/// Distances within a table fit the machine.
pub proof fn lemma_ring_bound(rc: int, i: int, j: int)
    requires
        rc >= 0,
        table_fits(rc),
        0 <= i < side(rc),
        0 <= j < side(rc),
    ensures
        rc <= i32::MAX,
        side(rc) <= usize::MAX,
        0 <= ring(rc, i, j) <= i64::MAX,
        0 <= (i - rc) * (i - rc) <= i32::MAX * i32::MAX,
        0 <= (j - rc) * (j - rc) <= i32::MAX * i32::MAX,
{
    lemma_side_in_square(rc);
    let n = side(rc);
    assert(n <= 0xffff_ffff) by (nonlinear_arith)
        requires
            n >= 1,
            n * n <= 0xffff_ffff_ffff_ffff,
    ;
    let (a, b) = (i - rc, j - rc);
    assert(0 <= a * a <= i32::MAX * i32::MAX) by (nonlinear_arith)
        requires
            -i32::MAX <= a <= i32::MAX,
    ;
    assert(0 <= b * b <= i32::MAX * i32::MAX) by (nonlinear_arith)
        requires
            -i32::MAX <= b <= i32::MAX,
    ;
}

/// The square of the distance from the centre of a table to one of its cells.
fn ring_at(rc: usize, i: usize, j: usize) -> (r2: i64)
    requires
        table_fits(rc as int),
        i < side(rc as int),
        j < side(rc as int),
    ensures
        r2 == ring(rc as int, i as int, j as int),
{
    proof {
        lemma_ring_bound(rc as int, i as int, j as int);
    }
    let dy: i64 = i as i64 - rc as i64;
    let dx: i64 = j as i64 - rc as i64;
    dy * dy + dx * dx
}

/// A table that `f` fills by the square of the distance.
pub(crate) fn radial_table<R, F: Fn(i64) -> R>(rc: usize, f: &F, Ghost(holds): Ghost<spec_fn(int, R) -> bool>) -> (table: Vec<R>)
    requires
        table_fits(rc as int),
        forall|r2: i64| #[trigger] f.requires((r2,)),
        forall|r2: i64, v: R| #[trigger] f.ensures((r2,), v) ==> holds(r2 as int, v),
    ensures
        radial(table@, rc as int, holds),
{
    proof {
        lemma_ring_bound(rc as int, 0, 0);
    }
    let n = 2 * rc + 1;
    let fill = |i: usize, j: usize| -> (v: R)
        requires
            i < n,
            j < n,
        ensures
            holds(ring(rc as int, i as int, j as int), v),
        {
            assert(n == side(rc as int));
            let v = f(ring_at(rc, i, j));
            v
        };
    let table = grid(n, n, &fill);
    proof {
        assert forall|i: int, j: int| 0 <= i < n && 0 <= j < n implies holds(
            ring(rc as int, i, j),
            #[trigger] table@[flat(n as int, i, j)],
        ) by {
            assert(fill.ensures((i as usize, j as usize), table@[flat(n as int, i as usize as int, j as usize as int)]));
        }
    }
    table
}

/// What a cell of an interaction table may hold.
pub open spec fn by_potential<P: Physics>(p: P, params: Params<P::Real>, attractive: bool) -> spec_fn(int, P::Real) -> bool {
    |r2: int, v: P::Real| potential_is(p, r2, params, attractive, v)
}

/// The interaction around a charge, out to `rc` cells.
pub fn kernel_table<P: Physics>(p: &P, params: &Params<P::Real>, rc: usize, attractive: bool) -> (table: Vec<P::Real>)
    requires
        table_fits(rc as int),
    ensures
        radial(table@, rc as int, by_potential(*p, *params, attractive)),
{
    let f = |r2: i64| -> (v: P::Real)
        ensures
            potential_is(*p, r2 as int, *params, attractive, v),
        { potential(p, r2, params, attractive) };
    radial_table(rc, &f, Ghost(by_potential(*p, *params, attractive)))
}

/// `r` is the interaction around a charge out to the cutoff, and how many cells that
/// is, or nothing if it is more than the machine has room for.
pub open spec fn kernel_is<P: Physics>(p: P, params: Params<P::Real>, attractive: bool, r: Option<(usize, Vec<P::Real>)>) -> bool {
    match r {
        Some((rc, table)) => {
            &&& reach_is(p, params.cutoff, rc)
            &&& table_fits(rc as int)
            &&& radial(table@, rc as int, by_potential(p, params, attractive))
        },
        None => exists|rc: usize| #[trigger] reach_is(p, params.cutoff, rc) && !table_fits(rc as int),
    }
}

/// The interaction around a charge out to the cutoff, and how many cells that
/// is. `None` if it is more than the machine has room for.
pub fn build_kernel<P: Physics>(p: &P, params: &Params<P::Real>, attractive: bool) -> (r: Option<(usize, Vec<P::Real>)>)
    ensures
        kernel_is(*p, *params, attractive, r),
{
    let rc = reach(p, params.cutoff);
    assert(reach_is(*p, params.cutoff, rc));
    if !has_table(rc) {
        return None;
    }
    Some((rc, kernel_table(p, params, rc, attractive)))
}

/// What a cell of a coupling table may hold.
pub open spec fn by_casting<P: Physics>(
    p: P,
    strength: P::Real,
    screening: P::Real,
    coupling: P::Real,
    hardness: P::Real,
) -> spec_fn(int, P::Real) -> bool {
    |r2: int, v: P::Real| casts(p, r2, strength, screening, coupling, hardness, v)
}

/// `r` is the potential that painted charge casts around it, as reach, table and
/// side, or nothing if it is more than the machine has room for.
pub open spec fn coupling_is<P: Physics>(
    p: P,
    strength: P::Real,
    screening: P::Real,
    coupling: P::Real,
    hardness: P::Real,
    r: Option<(usize, Vec<P::Real>, usize)>,
) -> bool {
    match r {
        Some((rp, table, n)) => {
            &&& reach_is(p, coupling, rp)
            &&& table_fits(rp as int)
            &&& n == side(rp as int)
            &&& radial(table@, rp as int, by_casting(p, strength, screening, coupling, hardness))
        },
        None => exists|rp: usize| #[trigger] reach_is(p, coupling, rp) && !table_fits(rp as int),
    }
}

/// The potential that painted charge casts around it, tapered off at the
/// coupling radius: how many cells it reaches, the table and its side. `None`
/// if it is more than the machine has room for.
pub fn coupling_kernel<P: Physics>(
    p: &P,
    strength: P::Real,
    screening: P::Real,
    coupling: P::Real,
    hardness: P::Real,
) -> (r: Option<(usize, Vec<P::Real>, usize)>)
    ensures
        coupling_is(*p, strength, screening, coupling, hardness, r),
{
    let rp = reach(p, coupling);
    assert(reach_is(*p, coupling, rp));
    if !has_table(rp) {
        return None;
    }
    let f = |r2: i64| -> (v: P::Real)
        ensures
            casts(*p, r2 as int, strength, screening, coupling, hardness, v),
        { casting(p, r2, strength, screening, coupling, hardness) };
    let table = radial_table(rp, &f, Ghost(by_casting(*p, strength, screening, coupling, hardness)));
    proof {
        lemma_ring_bound(rp as int, 0, 0);
    }
    Some((rp, table, 2 * rp + 1))
}

/// A particle does not feel itself: the centre of an interaction table is zero.
pub proof fn law_no_particle_feels_itself<P: Physics>(p: P, params: Params<P::Real>, attractive: bool, rc: int, table: Seq<P::Real>)
    requires
        rc >= 0,
        radial(table, rc, by_potential(p, params, attractive)),
    ensures
        call_ensures(P::zero, (&p,), table[flat(side(rc), rc, rc)]),
{
    assert(by_potential(p, params, attractive)(ring(rc, rc, rc), table[flat(side(rc), rc, rc)]));
}

/// Cells of a table at one distance hold one value, where that is settled.
proof fn lemma_same_ring<R>(table: Seq<R>, rc: int, holds: spec_fn(int, R) -> bool, i: int, j: int, k: int, l: int)
    requires
        radial(table, rc, holds),
        forall|r2: int, u: R, v: R| #[trigger] holds(r2, u) && #[trigger] holds(r2, v) ==> u == v,
        0 <= i < side(rc),
        0 <= j < side(rc),
        0 <= k < side(rc),
        0 <= l < side(rc),
        ring(rc, i, j) == ring(rc, k, l),
    ensures
        table[flat(side(rc), i, j)] == table[flat(side(rc), k, l)],
{
    assert(holds(ring(rc, i, j), table[flat(side(rc), i, j)]));
    assert(holds(ring(rc, k, l), table[flat(side(rc), k, l)]));
}

/// Cells mirrored at the centre's lines, or at its diagonal, are as far from it.
proof fn lemma_rings(rc: int, i: int, j: int)
    ensures
        ring(rc, i, j) == ring(rc, 2 * rc - i, j),
        ring(rc, i, j) == ring(rc, i, 2 * rc - j),
        ring(rc, i, j) == ring(rc, 2 * rc - i, 2 * rc - j),
        ring(rc, i, j) == ring(rc, j, i),
{
    let (a, b) = (i - rc, j - rc);
    assert((2 * rc - i) - rc == -a && (2 * rc - j) - rc == -b);
    assert((-a) * (-a) == a * a && (-b) * (-b) == b * b) by (nonlinear_arith);
}

/// A table reads the same mirrored up and down, mirrored left and right, and
/// with rows and columns exchanged.
pub open spec fn even<R>(table: Seq<R>, rc: int) -> bool {
    forall|i: int, j: int|
        #![trigger table[flat(side(rc), i, j)]]
        0 <= i < side(rc) && 0 <= j < side(rc) ==> {
            let v = table[flat(side(rc), i, j)];
            &&& table[flat(side(rc), 2 * rc - i, j)] == v
            &&& table[flat(side(rc), i, 2 * rc - j)] == v
            &&& table[flat(side(rc), 2 * rc - i, 2 * rc - j)] == v
            &&& table[flat(side(rc), j, i)] == v
        }
}

proof fn lemma_even<R>(table: Seq<R>, rc: int, holds: spec_fn(int, R) -> bool)
    requires
        radial(table, rc, holds),
        forall|r2: int, u: R, v: R| #[trigger] holds(r2, u) && #[trigger] holds(r2, v) ==> u == v,
    ensures
        even(table, rc),
{
    assert forall|i: int, j: int|
        #![trigger table[flat(side(rc), i, j)]]
        0 <= i < side(rc) && 0 <= j < side(rc) implies {
        let v = table[flat(side(rc), i, j)];
        &&& table[flat(side(rc), 2 * rc - i, j)] == v
        &&& table[flat(side(rc), i, 2 * rc - j)] == v
        &&& table[flat(side(rc), 2 * rc - i, 2 * rc - j)] == v
        &&& table[flat(side(rc), j, i)] == v
    } by {
        lemma_rings(rc, i, j);
        lemma_same_ring(table, rc, holds, i, j, 2 * rc - i, j);
        lemma_same_ring(table, rc, holds, i, j, i, 2 * rc - j);
        lemma_same_ring(table, rc, holds, i, j, 2 * rc - i, 2 * rc - j);
        lemma_same_ring(table, rc, holds, i, j, j, i);
    }
}

/// Painted charge casts alike in all directions: a coupling table is even.
pub proof fn law_paint_casts_alike<P: Physics>(
    p: P,
    strength: P::Real,
    screening: P::Real,
    coupling: P::Real,
    hardness: P::Real,
    rp: int,
    table: Seq<P::Real>,
)
    requires
        castings_settled(p),
        radial(table, rp, by_casting(p, strength, screening, coupling, hardness)),
    ensures
        even(table, rp),
{
    let holds = by_casting(p, strength, screening, coupling, hardness);
    assert forall|r2: int, u: P::Real, v: P::Real| #[trigger] holds(r2, u) && #[trigger] holds(r2, v) implies u == v by {
        lemma_casting_settled(p, r2, strength, screening, coupling, hardness, u, v);
    }
    lemma_even(table, rp, holds);
}

/// Particles feel each other alike: an interaction table is even, so it holds
/// the same for a step and for the step back.
pub proof fn law_particles_feel_alike<P: Physics>(p: P, params: Params<P::Real>, attractive: bool, rc: int, table: Seq<P::Real>)
    requires
        potentials_settled(p),
        radial(table, rc, by_potential(p, params, attractive)),
    ensures
        even(table, rc),
{
    let holds = by_potential(p, params, attractive);
    assert forall|r2: int, u: P::Real, v: P::Real| #[trigger] holds(r2, u) && #[trigger] holds(r2, v) implies u == v by {
        lemma_potential_settled(p, r2, params, attractive, u, v);
    }
    lemma_even(table, rc, holds);
}

} // verus!

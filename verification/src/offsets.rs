//! The interaction as a list of steps, and the energy that it gives.

use crate::formulas::{potential, potential_is, total, total_is};
use crate::kernel::{lemma_ring_bound, ring, side, table_fits};
use crate::lattice::{flat, lemma_flat_bound, lemma_flat_parts, wrap};
use crate::physics::{sum, summed, Params, Physics};
use crate::terms::{beyond, beyond_is, reach, reach_is};
use vstd::prelude::*;

verus! {

/// Steps within the cutoff, each with the potential at its end.
#[derive(Debug)]
pub struct OffsetTable<R> {
    pub dy: Vec<i32>,
    pub dx: Vec<i32>,
    pub v: Vec<R>,
}

/// What an offset table lists.
#[verifier::ext_equal]
pub struct Steps<R> {
    pub dy: Seq<i32>,
    pub dx: Seq<i32>,
    pub v: Seq<R>,
}

impl<R> View for OffsetTable<R> {
    type V = Steps<R>;

    open spec fn view(&self) -> Steps<R> {
        Steps { dy: self.dy@, dx: self.dx@, v: self.v@ }
    }
}

impl<R> Steps<R> {
    pub open spec fn none() -> Self {
        Steps { dy: Seq::empty(), dx: Seq::empty(), v: Seq::empty() }
    }

    pub open spec fn and(self, dy: int, dx: int, v: R) -> Self {
        Steps { dy: self.dy.push(dy as i32), dx: self.dx.push(dx as i32), v: self.v.push(v) }
    }

    /// The table has a row and a column for each of its values.
    pub open spec fn wf(self) -> bool {
        self.dy.len() == self.v.len() && self.dx.len() == self.v.len()
    }
}

/// `v` is the potential, in single precision, at the end of a step whose square
/// is `r2`.
pub open spec fn felt_at<P: Physics>(p: P, params: Params<P::Real>, r2: int, v: P::Real) -> bool {
    exists|wide: P::Real| #[trigger]
        potential_is(p, r2, params, true, wide) && call_ensures(P::narrow, (&p, wide), v)
}

/// `steps` lists, row by row, the first `n` cells of a table that reaches `rc`
/// cells, except its centre and those beyond the cutoff.
pub open spec fn lists<P: Physics>(p: P, params: Params<P::Real>, rc: int, n: nat, steps: Steps<P::Real>) -> bool
    decreases n,
{
    if n == 0 {
        steps == Steps::<P::Real>::none()
    } else {
        let (i, j) = ((n - 1) / side(rc), (n - 1) % side(rc));
        let r2 = ring(rc, i, j);
        if r2 == 0 {
            lists(p, params, rc, (n - 1) as nat, steps)
        } else {
            exists|far: bool| #[trigger]
                beyond_is(p, r2 as i64, params.cutoff, far) && if far {
                    lists(p, params, rc, (n - 1) as nat, steps)
                } else {
                    exists|less: Steps<P::Real>, v: P::Real| #[trigger]
                        less.and(i - rc, j - rc, v) == steps && felt_at(p, params, r2, v) && lists(
                            p,
                            params,
                            rc,
                            (n - 1) as nat,
                            less,
                        )
                }
        }
    }
}

/// The steps of a table that reaches `rc` cells.
pub fn offset_table<P: Physics>(p: &P, params: &Params<P::Real>, rc: usize) -> (off: OffsetTable<P::Real>)
    requires
        table_fits(rc as int),
    ensures
        lists(*p, *params, rc as int, (side(rc as int) * side(rc as int)) as nat, off@),
        off@.wf(),
        off@.v.len() <= side(rc as int) * side(rc as int),
        forall|k: int|
            0 <= k < off@.v.len() ==> -rc <= #[trigger] off@.dy[k] <= rc && -rc <= off@.dx[k] <= rc,
{
    proof {
        lemma_ring_bound(rc as int, 0, 0);
    }
    let n = 2 * rc + 1;
    let mut off = OffsetTable { dy: Vec::new(), dx: Vec::new(), v: Vec::new() };
    let ghost mut c: nat = 0;
    let mut i: usize = 0;
    while i < n
        invariant
            i <= n == side(rc as int),
            table_fits(rc as int),
            rc <= i32::MAX,
            c == i * n,
            off@.wf(),
            off@.v.len() <= c,
            forall|k: int|
                0 <= k < off@.v.len() ==> -rc <= #[trigger] off@.dy[k] <= rc && -rc <= off@.dx[k] <= rc,
            lists(*p, *params, rc as int, c, off@),
        decreases n - i,
    {
        let mut j: usize = 0;
        while j < n
            invariant
                i < n == side(rc as int),
                j <= n,
                table_fits(rc as int),
                rc <= i32::MAX,
                c == i * n + j,
                off@.wf(),
                off@.v.len() <= c,
                forall|k: int|
                    0 <= k < off@.v.len() ==> -rc <= #[trigger] off@.dy[k] <= rc && -rc <= off@.dx[k] <= rc,
                lists(*p, *params, rc as int, c, off@),
            decreases n - j,
        {
            proof {
                lemma_ring_bound(rc as int, i as int, j as int);
                lemma_flat_parts(n as int, i as int, j as int);
            }
            let dy: i64 = i as i64 - rc as i64;
            let dx: i64 = j as i64 - rc as i64;
            let r2: i64 = dy * dy + dx * dx;
            assert(r2 == ring(rc as int, i as int, j as int));
            let ghost before = off@;
            if r2 != 0 {
                let far = beyond(p, r2, params.cutoff);
                assert(beyond_is(*p, r2, params.cutoff, far));
                if !far {
                    let wide = potential(p, r2, params, true);
                    let v = p.narrow(wide);
                    assert(potential_is(*p, r2 as int, *params, true, wide));
                    assert(felt_at(*p, *params, r2 as int, v));
                    off.dy.push(dy as i32);
                    off.dx.push(dx as i32);
                    off.v.push(v);
                    assert(before.and(i - rc, j - rc, v) =~= off@);
                    assert forall|k: int| 0 <= k < off@.v.len() implies -rc <= #[trigger] off@.dy[k] <= rc && -rc
                        <= off@.dx[k] <= rc by {
                        if k < before.v.len() {
                            assert(off@.dy[k] == before.dy[k] && off@.dx[k] == before.dx[k]);
                        }
                    }
                }
            }
            proof {
                c = c + 1;
            }
            j = j + 1;
        }
        proof {
            assert((i + 1) * n == i * n + n) by (nonlinear_arith);
        }
        i = i + 1;
    }
    off
}

/// `r` lists the steps within the cutoff, or is nothing if that reaches over more
/// cells than the machine has room for.
pub open spec fn offsets_are<P: Physics>(p: P, params: Params<P::Real>, r: Option<OffsetTable<P::Real>>) -> bool {
    match r {
        Some(off) => exists|rc: usize| #[trigger] reach_is(p, params.cutoff, rc) && listed_to(p, params, rc, off@),
        None => exists|rc: usize| #[trigger] reach_is(p, params.cutoff, rc) && !table_fits(rc as int),
    }
}

/// `steps` lists the steps within the cutoff, none of them longer than `rc` cells
/// either way.
pub open spec fn listed_to<P: Physics>(p: P, params: Params<P::Real>, rc: usize, steps: Steps<P::Real>) -> bool {
    &&& table_fits(rc as int)
    &&& lists(p, params, rc as int, (side(rc as int) * side(rc as int)) as nat, steps)
    &&& steps.wf()
    &&& forall|k: int| 0 <= k < steps.v.len() ==> -rc <= #[trigger] steps.dy[k] <= rc && -rc <= steps.dx[k] <= rc
}

/// The steps within the cutoff. `None` if the cutoff reaches over more cells
/// than the machine has room for.
pub fn build_offset_table<P: Physics>(p: &P, params: &Params<P::Real>) -> (r: Option<OffsetTable<P::Real>>)
    ensures
        offsets_are(*p, *params, r),
{
    let rc = reach(p, params.cutoff);
    assert(reach_is(*p, params.cutoff, rc));
    if crate::kernel::has_table(rc) {
        Some(offset_table(p, params, rc))
    } else {
        None
    }
}

/// The cell a step leads to from `(y, x)`.
pub open spec fn stepped_to(y: int, x: int, dy: int, dx: int, h: int, w: int, periodic: bool) -> (int, int) {
    if periodic {
        ((y + dy) % h, (x + dx) % w)
    } else {
        (y + dy, x + dx)
    }
}

/// The `k`-th step leads from cell `c` to a lit cell.
pub open spec fn meets<R>(steps: Steps<R>, occ: Seq<bool>, h: int, w: int, periodic: bool, c: int, k: int) -> bool {
    let (y, x) = stepped_to(c / w, c % w, steps.dy[k] as int, steps.dx[k] as int, h, w, periodic);
    0 <= y < h && 0 <= x < w && occ[flat(w, y, x)]
}

/// The potentials of the first `k` steps from cell `c` that lead to lit cells.
pub open spec fn met<R>(steps: Steps<R>, occ: Seq<bool>, h: int, w: int, periodic: bool, c: int, k: nat) -> Seq<R>
    decreases k,
{
    if k == 0 {
        Seq::empty()
    } else {
        let less = met(steps, occ, h, w, periodic, c, (k - 1) as nat);
        if meets(steps, occ, h, w, periodic, c, k - 1) {
            less.push(steps.v[k - 1])
        } else {
            less
        }
    }
}

/// The potentials of all steps from one lit cell to another, of the lit cells
/// below place `n`, in order. Each pair of particles comes twice.
pub open spec fn met_by_all<R>(steps: Steps<R>, occ: Seq<bool>, h: int, w: int, periodic: bool, n: nat) -> Seq<R>
    decreases n,
{
    if n == 0 {
        Seq::empty()
    } else {
        let less = met_by_all(steps, occ, h, w, periodic, (n - 1) as nat);
        if occ[n - 1] {
            less + met(steps, occ, h, w, periodic, n - 1, steps.v.len())
        } else {
            less
        }
    }
}

/// The fixed potential on the lit cells below place `n`, in order.
pub open spec fn edge_on_lit<R>(occ: Seq<bool>, u_edge: Seq<R>, n: nat) -> Seq<R>
    decreases n,
{
    if n == 0 {
        Seq::empty()
    } else if occ[n - 1] {
        edge_on_lit(occ, u_edge, (n - 1) as nat).push(u_edge[n - 1])
    } else {
        edge_on_lit(occ, u_edge, (n - 1) as nat)
    }
}

/// `e` is the energy of particles on the lit cells, by the steps between them.
pub open spec fn energy_by_steps<P: Physics>(
    p: P,
    occ: Seq<bool>,
    u_edge: Seq<P::Real>,
    steps: Steps<P::Real>,
    h: int,
    w: int,
    periodic: bool,
    charge: P::Real,
    e: P::Real,
) -> bool {
    exists|e_mm: P::Real, e_edge: P::Real|
        summed(p, met_by_all(steps, occ, h, w, periodic, occ.len()), e_mm) && summed(
            p,
            edge_on_lit(occ, u_edge, occ.len()),
            e_edge,
        ) && #[trigger] total_is(p, charge, e_mm, e_edge, e)
}

/// The potentials that a particle on cell `(y, x)` meets.
fn meet_from<R: Copy>(
    off: &OffsetTable<R>,
    occ: &Vec<bool>,
    h: usize,
    w: usize,
    periodic: bool,
    y: usize,
    x: usize,
    terms: &mut Vec<R>,
)
    requires
        off@.wf(),
        occ@.len() == h * w,
        y < h <= i32::MAX,
        x < w <= i32::MAX,
    ensures
        final(terms)@ == old(terms)@ + met(off@, occ@, h as int, w as int, periodic, flat(w as int, y as int, x as int), off@.v.len()),
{
    let cells = occ.len();
    let ghost c = flat(w as int, y as int, x as int);
    let ghost before = terms@;
    proof {
        lemma_flat_parts(w as int, y as int, x as int);
    }
    let mut k: usize = 0;
    while k < off.v.len()
        invariant
            k <= off.v@.len(),
            off@.wf(),
            occ@.len() == cells == h * w,
            y < h <= i32::MAX,
            x < w <= i32::MAX,
            c / w as int == y,
            c % w as int == x,
            terms@ =~= before + met(off@, occ@, h as int, w as int, periodic, c, k as nat),
        decreases off.v@.len() - k,
    {
        let mut yy: i64 = y as i64 + off.dy[k] as i64;
        let mut xx: i64 = x as i64 + off.dx[k] as i64;
        if periodic {
            yy = wrap(yy, h as i64);
            xx = wrap(xx, w as i64);
        }
        assert((yy as int, xx as int) == stepped_to(
            y as int,
            x as int,
            off@.dy[k as int] as int,
            off@.dx[k as int] as int,
            h as int,
            w as int,
            periodic,
        ));
        if 0 <= yy && yy < h as i64 && 0 <= xx && xx < w as i64 {
            proof {
                lemma_flat_bound(h as int, w as int, yy as int, xx as int);
            }
            if occ[yy as usize * w + xx as usize] {
                terms.push(off.v[k]);
            }
        }
        k = k + 1;
    }
}

/// The energy of particles on the lit cells, by the steps between them. Each
/// pair is met twice, which the weight of the pair term makes up for.
pub fn total_energy_from_offsets<P: Physics>(
    p: &P,
    occ: &Vec<bool>,
    u_edge: &Vec<P::Real>,
    off: &OffsetTable<P::Real>,
    h: usize,
    w: usize,
    periodic: bool,
    charge: P::Real,
) -> (e: P::Real)
    requires
        off@.wf(),
        occ@.len() == h * w,
        u_edge@.len() == h * w,
        h <= i32::MAX,
        w <= i32::MAX,
    ensures
        energy_by_steps(*p, occ@, u_edge@, off@, h as int, w as int, periodic, charge, e),
{
    let cells = occ.len();
    let mut edge: Vec<P::Real> = Vec::new();
    let mut pairs: Vec<P::Real> = Vec::new();
    let mut c: usize = 0;
    let mut y: usize = 0;
    while y < h
        invariant
            y <= h <= i32::MAX,
            w <= i32::MAX,
            off@.wf(),
            occ@.len() == cells == h * w,
            u_edge@.len() == cells,
            c == y * w,
            edge@ =~= edge_on_lit(occ@, u_edge@, c as nat),
            pairs@ =~= met_by_all(off@, occ@, h as int, w as int, periodic, c as nat),
        decreases h - y,
    {
        let mut x: usize = 0;
        while x < w
            invariant
                y < h <= i32::MAX,
                x <= w <= i32::MAX,
                off@.wf(),
                occ@.len() == cells == h * w,
                u_edge@.len() == cells,
                c == y * w + x,
                edge@ =~= edge_on_lit(occ@, u_edge@, c as nat),
                pairs@ =~= met_by_all(off@, occ@, h as int, w as int, periodic, c as nat),
            decreases w - x,
        {
            proof {
                lemma_flat_bound(h as int, w as int, y as int, x as int);
            }
            if occ[c] {
                edge.push(u_edge[c]);
                meet_from(off, occ, h, w, periodic, y, x, &mut pairs);
            }
            c = c + 1;
            x = x + 1;
        }
        proof {
            assert((y + 1) * w == y * w + w) by (nonlinear_arith);
        }
        y = y + 1;
    }
    let e_edge = sum(p, &edge);
    let e_mm = sum(p, &pairs);
    total(p, charge, e_mm, e_edge)
}

} // verus!

//! Setting up a gas over a drawing, and its energy as a whole.

use crate::anneal::{law_annealing_conserves_particles, none_closed_in, ran, stepped};
use crate::convolve::{convolve, field_fits, spread};
use crate::formulas::{total, total_is};
use crate::kernel::{build_kernel, by_potential, has_table, kernel_table, radial};
use crate::lattice::{count_lit, lemma_flat_bound, lemma_flat_inverse, lemma_flat_parts};
use crate::physics::{sum, summed, Params, Physics, Stats};
use crate::proposal::{law_lit_cells_are_the_particles, Board, Site};
use crate::sim::{Gas, Layout, Sim};
use crate::spectrum::keeps_length;
use crate::stream::Stream;
use crate::stroke::filled;
use crate::terms::{reach_is, solid, solid_is};
use vstd::prelude::*;

verus! {

/// `field` holds one on lit cells and zero on the others.
pub open spec fn charged<P: Physics>(p: P, occ: Seq<bool>, field: Seq<P::Real>) -> bool {
    &&& field.len() == occ.len()
    &&& forall|i: int|
        0 <= i < occ.len() ==> if occ[i] {
            call_ensures(P::one, (&p,), #[trigger] field[i])
        } else {
            call_ensures(P::zero, (&p,), field[i])
        }
}

/// `r` is the sum of the products of `a` and `b`, cell by cell.
pub open spec fn dotted<P: Physics>(p: P, a: Seq<P::Real>, b: Seq<P::Real>, r: P::Real) -> bool {
    exists|parts: Seq<P::Real>| #[trigger]
        summed(p, parts, r) && parts.len() == a.len() && (forall|i: int|
            0 <= i < a.len() ==> call_ensures(P::times, (&p, a[i], b[i]), #[trigger] parts[i]))
}

/// `e` is the energy of a gas laid out so: of its particles with one another,
/// and in the fixed potential.
pub open spec fn totals<P: Physics>(p: P, lay: Layout<P::Real>, e: P::Real) -> bool {
    exists|field: Seq<P::Real>, conv: Seq<P::Real>, e_mm: P::Real, e_edge: P::Real| #[trigger]
        totals_by(p, lay, e, field, conv, e_mm, e_edge)
}

pub open spec fn totals_by<P: Physics>(
    p: P,
    lay: Layout<P::Real>,
    e: P::Real,
    field: Seq<P::Real>,
    conv: Seq<P::Real>,
    e_mm: P::Real,
    e_edge: P::Real,
) -> bool {
    &&& charged(p, lay.occ, field)
    &&& spread(
        p,
        field,
        lay.params.h as int,
        lay.params.w as int,
        lay.kernel,
        lay.rc as int,
        lay.params.periodic,
        conv,
    )
    &&& dotted(p, field, conv, e_mm)
    &&& dotted(p, field, lay.u_edge, e_edge)
    &&& total_is(p, lay.params.charge, e_mm, e_edge, e)
}

/// The sum of the products of `a` and `b`, cell by cell.
fn dot<P: Physics>(p: &P, a: &Vec<P::Real>, b: &Vec<P::Real>) -> (r: P::Real)
    requires
        a@.len() == b@.len(),
    ensures
        dotted(*p, a@, b@, r),
{
    let mut parts: Vec<P::Real> = Vec::with_capacity(a.len());
    let mut i: usize = 0;
    while i < a.len()
        invariant
            i <= a@.len() == b@.len(),
            parts@.len() == i,
            forall|k: int| 0 <= k < i ==> call_ensures(P::times, (p, a@[k], b@[k]), #[trigger] parts@[k]),
        decreases a@.len() - i,
    {
        parts.push(p.times(a[i], b[i]));
        i = i + 1;
    }
    sum(p, &parts)
}

/// The particles as a field of charge.
fn charge_field<P: Physics>(p: &P, occ: &Vec<bool>) -> (field: Vec<P::Real>)
    ensures
        charged(*p, occ@, field@),
{
    let (one, zero) = (p.one(), p.zero());
    let mut field: Vec<P::Real> = Vec::with_capacity(occ.len());
    let mut i: usize = 0;
    while i < occ.len()
        invariant
            i <= occ@.len(),
            call_ensures(P::one, (p,), one),
            call_ensures(P::zero, (p,), zero),
            field@.len() == i,
            forall|k: int|
                0 <= k < i ==> if occ@[k] {
                    call_ensures(P::one, (p,), #[trigger] field@[k])
                } else {
                    call_ensures(P::zero, (p,), field@[k])
                },
        decreases occ@.len() - i,
    {
        field.push(if occ[i] { one } else { zero });
        i = i + 1;
    }
    field
}

/// The energy of particles on the lit cells.
fn energy_of<P: Physics>(
    p: &P,
    params: &Params<P::Real>,
    occ: &Vec<bool>,
    u_edge: &Vec<P::Real>,
    kernel: &Vec<P::Real>,
    rc: usize,
    Ghost(lay): Ghost<Layout<P::Real>>,
) -> (e: P::Real)
    requires
        keeps_length(*p),
        lay.params == *params,
        lay.occ == occ@,
        lay.u_edge == u_edge@,
        lay.kernel == kernel@,
        lay.rc == rc,
        occ@.len() == params.h * params.w,
        u_edge@.len() == params.h * params.w,
        field_fits(params.h as int, params.w as int, rc as int, params.periodic),
        kernel@.len() == crate::kernel::side(rc as int) * crate::kernel::side(rc as int),
    ensures
        totals(*p, lay, e),
{
    let field = charge_field(p, occ);
    let conv = convolve(p, &field, params.h, params.w, kernel, rc, params.periodic);
    let e_mm = dot(p, &field, &conv);
    let e_edge = dot(p, &field, u_edge);
    let e = total(p, params.charge, e_mm, e_edge);
    assert(totals_by(*p, lay, e, field@, conv@, e_mm, e_edge));
    e
}

impl<R: Copy> Sim<R> {
    /// The energy of the gas, worked out afresh.
    pub fn total_energy<P: Physics<Real = R>>(&self, p: &P) -> (e: R)
        requires
            keeps_length(*p),
            self.whole(),
        ensures
            totals(*p, self.layout(), e),
    {
        energy_of(p, &self.params, &self.occ, &self.u_edge, &self.kernel, self.rc, Ghost(self.layout()))
    }
}

/// `u` is the potential of lines that cover the cells by `cov`.
pub open spec fn cast_by_lines<P: Physics>(
    p: P,
    params: Params<P::Real>,
    cov: Seq<P::Real>,
    density: P::Real,
    table: Seq<P::Real>,
    rc: int,
    u: Seq<P::Real>,
) -> bool {
    exists|edge: Seq<P::Real>| #[trigger]
        spread(p, edge, params.h as int, params.w as int, table, rc, params.periodic, u) && edge.len() == cov.len() && (
        forall|i: int| 0 <= i < cov.len() ==> call_ensures(P::times, (&p, cov[i], density), #[trigger] edge[i]))
}

/// The lit cells below place `n` of a lattice of width `w`, in order.
pub open spec fn lit_sites(occ: Seq<bool>, w: int, n: nat) -> Seq<Site>
    decreases n,
{
    if n == 0 {
        Seq::empty()
    } else if occ[n - 1] {
        lit_sites(occ, w, (n - 1) as nat).push((((n - 1) / w) as i32, ((n - 1) % w) as i32))
    } else {
        lit_sites(occ, w, (n - 1) as nat)
    }
}

/// The listed sites are the lit cells, each once.
pub proof fn lemma_lit_sites(b: Board, n: nat)
    requires
        b.fits(),
        n <= b.occ.len(),
    ensures
        ({
            let sites = lit_sites(b.occ, b.w, n);
            &&& forall|i: int|
                0 <= i < sites.len() ==> b.on_board(#[trigger] sites[i]) && b.lit(sites[i]) && b.at(sites[i]) < n
            &&& forall|i: int, j: int| 0 <= i < j < sites.len() ==> b.at(#[trigger] sites[i]) < b.at(#[trigger] sites[j])
            &&& forall|s: Site| b.on_board(s) && #[trigger] b.lit(s) && b.at(s) < n ==> sites.contains(s)
        }),
    decreases n,
{
    let sites = lit_sites(b.occ, b.w, n);
    if n > 0 {
        let less = lit_sites(b.occ, b.w, (n - 1) as nat);
        lemma_lit_sites(b, (n - 1) as nat);
        lemma_flat_inverse(b.h, b.w, n - 1);
        let last = (((n - 1) / b.w) as i32, ((n - 1) % b.w) as i32);
        assert(b.at(last) == n - 1);
        assert forall|s: Site| b.on_board(s) && #[trigger] b.lit(s) && b.at(s) < n implies sites.contains(s) by {
            if b.at(s) == n - 1 {
                lemma_flat_parts(b.w, s.0 as int, s.1 as int);
                assert(s == last);
                assert(sites[sites.len() - 1] == s);
            } else {
                assert(less.contains(s));
                let i = choose|i: int| 0 <= i < less.len() && less[i] == s;
                assert(sites[i] == s);
            }
        }
    }
}

/// The particles that stand on the lit cells, row by row.
fn list_sites(occ: &Vec<bool>, h: usize, w: usize) -> (pos: Vec<Site>)
    requires
        occ@.len() == h * w,
        h <= i32::MAX,
        w <= i32::MAX,
    ensures
        pos@ == lit_sites(occ@, w as int, occ@.len()),
{
    let cells = occ.len();
    let mut pos: Vec<Site> = Vec::new();
    let mut y: usize = 0;
    let mut c: usize = 0;
    while y < h
        invariant
            y <= h <= i32::MAX,
            w <= i32::MAX,
            cells == h * w,
            occ@.len() == cells,
            c == y * w,
            pos@ == lit_sites(occ@, w as int, c as nat),
        decreases h - y,
    {
        let mut x: usize = 0;
        while x < w
            invariant
                y < h <= i32::MAX,
                x <= w <= i32::MAX,
                cells == h * w,
                occ@.len() == cells,
                c == y * w + x,
                pos@ == lit_sites(occ@, w as int, c as nat),
            decreases w - x,
        {
            proof {
                lemma_flat_bound(h as int, w as int, y as int, x as int);
                lemma_flat_parts(w as int, y as int, x as int);
            }
            if occ[c] {
                pos.push((y as i32, x as i32));
            }
            c = c + 1;
            x = x + 1;
        }
        proof {
            assert((y + 1) * w == y * w + w) by (nonlinear_arith);
        }
        y = y + 1;
    }
    pos
}

/// Whether a lattice can be convolved by a table that reaches `rc` cells.
pub fn has_field(h: usize, w: usize, rc: usize, periodic: bool) -> (r: bool)
    ensures
        r == field_fits(h as int, w as int, rc as int, periodic),
{
    if !has_table(rc) {
        return false;
    }
    proof {
        crate::kernel::lemma_ring_bound(rc as int, 0, 0);
    }
    let room: u128 = if periodic { 0 } else { 2 * rc as u128 };
    let fh: u128 = h as u128 + room;
    let fw: u128 = w as u128 + room;
    let most: u128 = i64::MAX as u128;
    if fh == 0 || fw == 0 || fh > most || fw > most {
        return false;
    }
    proof {
        assert(fh * fw <= 0x7fff_ffff_ffff_ffff * 0x7fff_ffff_ffff_ffff) by (nonlinear_arith)
            requires
                0 <= fh <= 0x7fff_ffff_ffff_ffff,
                0 <= fw <= 0x7fff_ffff_ffff_ffff,
        ;
    }
    fh * fw <= usize::MAX as u128
}

/// The geometry of `params` fits the machine's coordinates.
pub open spec fn geometry_fits<R>(params: Params<R>) -> bool {
    &&& 0 <= params.step_size
    &&& 2 * params.step_size + 1 <= i32::MAX
    &&& params.h + params.step_size <= i32::MAX
    &&& params.w + params.step_size <= i32::MAX
}

/// Whether the geometry of `params` fits the machine's coordinates.
pub fn has_geometry<R>(params: &Params<R>) -> (r: bool)
    ensures
        r == geometry_fits(*params),
{
    let hop: i128 = params.step_size as i128;
    let most: i128 = i32::MAX as i128;
    0 <= hop && 2 * hop + 1 <= most && params.h as i128 + hop <= most && params.w as i128 + hop <= most
}

/// `sim` is the gas set up over lines that cover the cells by `cov`, particles
/// on the cells lit in `occ0` that no line closes.
pub open spec fn set_up<P: Physics>(
    p: P,
    params: Params<P::Real>,
    cov: Seq<P::Real>,
    occ0: Seq<bool>,
    line_density: P::Real,
    line_blocks: bool,
    sim: Sim<P::Real>,
) -> bool {
    let n = params.h * params.w;
    &&& sim.params == params
    &&& sim.stream.seed == params.seed
    &&& sim.stream.position == 0
    &&& sim.cov@ == cov
    &&& sim.line_density == line_density
    &&& forall|i: int|
        0 <= i < n ==> if line_blocks {
            solid_is(p, cov[i], #[trigger] sim.line_blocked@[i])
        } else {
            !sim.line_blocked@[i]
        }
    &&& forall|i: int| 0 <= i < n ==> call_ensures(P::zero, (&p,), #[trigger] sim.paint@[i])
    &&& forall|i: int| 0 <= i < n ==> !(#[trigger] sim.paint_blocked@[i])
    &&& sim.strokes@.len() == 0
    &&& sim.blocked@ == sim.line_blocked@
    &&& reach_is(p, params.cutoff, sim.rc)
    &&& radial(sim.kernel@, sim.rc as int, by_potential(p, params, true))
    &&& radial(sim.kernel_edge@, sim.rc as int, by_potential(p, params, false))
    &&& cast_by_lines(p, params, cov, line_density, sim.kernel_edge@, sim.rc as int, sim.u_edge@)
    &&& forall|i: int| 0 <= i < n ==> #[trigger] sim.occ@[i] == (occ0[i] && !sim.blocked@[i])
    &&& sim.pos@ == lit_sites(sim.occ@, params.w as int, n as nat)
    &&& totals(p, sim.layout(), sim.energy)
    &&& sim.iteration == 0
    &&& sim.proposed == 0
    &&& sim.accepted == 0
    &&& sim.dead_proposals == 0
    &&& sim.fail_streak == 0
    &&& sim.live_batch == (if params.batch > params.batch_min {
        params.batch
    } else {
        params.batch_min
    })
}

impl<R: Copy> Sim<R> {
    /// A gas over lines that cover the cells by `cov`, with particles on the
    /// cells lit in `occ0`, except where lines close cells. `None` if the
    /// cutoff reaches over more cells than the machine has room for.
    pub fn new<P: Physics<Real = R>>(
        p: &P,
        params: Params<R>,
        cov: Vec<R>,
        occ0: Vec<bool>,
        line_density: R,
        line_blocks: bool,
    ) -> (r: Option<Self>)
        requires
            keeps_length(*p),
            geometry_fits(params),
            cov@.len() == params.h * params.w,
            occ0@.len() == params.h * params.w,
        ensures
            r matches Some(sim) ==> sim.wf() && set_up(*p, params, cov@, occ0@, line_density, line_blocks, sim),
            r is None ==> exists|rc: usize| #[trigger]
                reach_is(*p, params.cutoff, rc) && !field_fits(
                    params.h as int,
                    params.w as int,
                    rc as int,
                    params.periodic,
                ),
    {
        let n = cov.len();
        let (rc, kernel) = match build_kernel(p, &params, true) {
            Some(k) => k,
            None => {
                return None;
            },
        };
        if !has_field(params.h, params.w, rc, params.periodic) {
            return None;
        }
        let kernel_edge = kernel_table(p, &params, rc, false);
        let mut line_blocked: Vec<bool> = Vec::with_capacity(n);
        let mut edge: Vec<R> = Vec::with_capacity(n);
        let mut occ: Vec<bool> = Vec::with_capacity(n);
        let mut blocked: Vec<bool> = Vec::with_capacity(n);
        let mut i: usize = 0;
        while i < n
            invariant
                i <= n == cov@.len(),
                occ0@.len() == n,
                line_blocked@.len() == i,
                edge@.len() == i,
                occ@.len() == i,
                blocked@ == line_blocked@,
                forall|k: int|
                    0 <= k < i ==> if line_blocks {
                        solid_is(*p, cov@[k], #[trigger] line_blocked@[k])
                    } else {
                        !line_blocked@[k]
                    },
                forall|k: int| 0 <= k < i ==> call_ensures(P::times, (p, cov@[k], line_density), #[trigger] edge@[k]),
                forall|k: int| 0 <= k < i ==> #[trigger] occ@[k] == (occ0@[k] && !blocked@[k]),
            decreases n - i,
        {
            let closed = line_blocks && solid(p, cov[i]);
            line_blocked.push(closed);
            blocked.push(closed);
            edge.push(p.times(cov[i], line_density));
            occ.push(occ0[i] && !closed);
            i = i + 1;
        }
        let zero = p.zero();
        let paint = filled(zero, n);
        let paint_blocked = filled(false, n);
        let u_edge = convolve(p, &edge, params.h, params.w, &kernel_edge, rc, params.periodic);
        let pos = list_sites(&occ, params.h, params.w);
        let live_batch = if params.batch > params.batch_min { params.batch } else { params.batch_min };
        let ghost lay = Layout {
            params,
            blocked: blocked@,
            u_edge: u_edge@,
            kernel: kernel@,
            rc,
            occ: occ@,
            pos: pos@,
        };
        let energy = energy_of(p, &params, &occ, &u_edge, &kernel, rc, Ghost(lay));
        let sim = Sim {
            params,
            stream: Stream::new(params.seed),
            cov,
            line_density,
            line_blocked,
            paint,
            paint_blocked,
            strokes: Vec::new(),
            blocked,
            u_edge,
            kernel,
            kernel_edge,
            rc,
            occ,
            pos,
            energy,
            iteration: 0,
            proposed: 0,
            accepted: 0,
            dead_proposals: 0,
            fail_streak: 0,
            live_batch,
        };
        proof {
            let b = sim.layout().board();
            lemma_lit_sites(b, b.occ.len());
            assert forall|s: Site| b.on_board(s) && #[trigger] b.lit(s) implies b.pos.contains(s) by {
                lemma_flat_bound(b.h, b.w, s.0 as int, s.1 as int);
            }
            assert(sim.layout() == lay);
            assert(cast_by_lines(*p, params, cov@, line_density, kernel_edge@, rc as int, u_edge@));
        }
        Some(sim)
    }
}

/// The place of the `k`-th of `take` particles spread evenly over `total`
/// cells.
pub open spec fn strided(k: int, take: int, total: int) -> int {
    k * total / take
}

/// The lit cells are those of `take` particles spread evenly.
pub open spec fn evenly_lit(occ: Seq<bool>, take: int) -> bool {
    forall|c: int|
        0 <= c < occ.len() ==> (#[trigger] occ[c] <==> exists|k: int| 0 <= k < take && #[trigger] strided(k, take, occ.len() as int) == c)
}

/// Particles spread evenly stand on cells of their own, in order.
proof fn lemma_strides(j: int, k: int, take: int, total: int)
    requires
        0 <= j <= k < take <= total,
    ensures
        0 <= strided(j, take, total) <= strided(k, take, total) < total,
        j < k ==> strided(j, take, total) < strided(k, take, total),
{
    let (a, b) = (j * total, k * total);
    vstd::arithmetic::div_mod::lemma_fundamental_div_mod(a, take);
    vstd::arithmetic::div_mod::lemma_fundamental_div_mod(b, take);
    let (qa, qb) = (a / take, b / take);
    let (ra, rb) = (a % take, b % take);
    assert(0 <= qa && qb < total) by (nonlinear_arith)
        requires
            a == take * qa + ra,
            b == take * qb + rb,
            0 <= ra < take,
            0 <= rb < take,
            a == j * total,
            b == k * total,
            0 <= j <= k < take <= total,
    ;
    assert(qa <= qb) by (nonlinear_arith)
        requires
            a == take * qa + ra,
            b == take * qb + rb,
            0 <= ra < take,
            0 <= rb < take,
            a == j * total,
            b == k * total,
            0 <= j <= k,
            0 < total,
    ;
    if j < k {
        assert(b >= a + total) by (nonlinear_arith)
            requires
                a == j * total,
                b == k * total,
                j + 1 <= k,
                0 < total,
        ;
        assert(qa < qb) by (nonlinear_arith)
            requires
                a == take * qa + ra,
                b == take * qb + rb,
                0 <= ra < take,
                0 <= rb < take,
                b >= a + total,
                take <= total,
        ;
    }
}

/// Lighting a dark cell adds one to the count.
proof fn lemma_count_rise(cells: Seq<bool>, i: int)
    requires
        0 <= i < cells.len(),
        !cells[i],
    ensures
        count_lit(cells.update(i, true)) == count_lit(cells) + 1,
    decreases cells.len(),
{
    let after = cells.update(i, true);
    if i == cells.len() - 1 {
        assert(after.drop_last() =~= cells.drop_last());
    } else {
        assert(after.drop_last() =~= cells.drop_last().update(i, true));
        lemma_count_rise(cells.drop_last(), i);
    }
}

proof fn lemma_count_dark(cells: Seq<bool>)
    requires
        forall|i: int| 0 <= i < cells.len() ==> !(#[trigger] cells[i]),
    ensures
        count_lit(cells) == 0,
    decreases cells.len(),
{
    if cells.len() > 0 {
        lemma_count_dark(cells.drop_last());
    }
}

/// Lights `take` of `total` cells, evenly spread.
pub fn strided_occupancy(total: usize, take: usize) -> (occ: Vec<bool>)
    requires
        take <= total,
    ensures
        occ@.len() == total,
        evenly_lit(occ@, take as int),
        count_lit(occ@) == take,
{
    let mut occ = filled(false, total);
    proof {
        lemma_count_dark(occ@);
    }
    let mut k: usize = 0;
    while k < take
        invariant
            k <= take <= total,
            occ@.len() == total,
            count_lit(occ@) == k,
            forall|c: int|
                0 <= c < total ==> (#[trigger] occ@[c] <==> exists|j: int|
                    0 <= j < k && #[trigger] strided(j, take as int, total as int) == c),
        decreases take - k,
    {
        proof {
            lemma_strides(k as int, k as int, take as int, total as int);
            assert(k * total <= 0xffff_ffff_ffff_ffff * 0xffff_ffff_ffff_ffff) by (nonlinear_arith)
                requires
                    0 <= k <= 0xffff_ffff_ffff_ffff,
                    0 <= total <= 0xffff_ffff_ffff_ffff,
            ;
        }
        let c = ((k as u128 * total as u128) / take as u128) as usize;
        assert(c == strided(k as int, take as int, total as int));
        let ghost before = occ@;
        proof {
            if before[c as int] {
                let j = choose|j: int| 0 <= j < k && #[trigger] strided(j, take as int, total as int) == c;
                lemma_strides(j, k as int, take as int, total as int);
            }
            lemma_count_rise(before, c as int);
        }
        occ.set(c, true);
        proof {
            assert forall|d: int| 0 <= d < total implies (#[trigger] occ@[d] <==> exists|j: int|
                0 <= j < k + 1 && #[trigger] strided(j, take as int, total as int) == d) by {
                if d != c && occ@[d] {
                    assert(before[d]);
                    let j = choose|j: int| 0 <= j < k && #[trigger] strided(j, take as int, total as int) == d;
                    assert(0 <= j < k + 1);
                }
                if exists|j: int| 0 <= j < k + 1 && #[trigger] strided(j, take as int, total as int) == d {
                    let j = choose|j: int| 0 <= j < k + 1 && #[trigger] strided(j, take as int, total as int) == d;
                    if j < k {
                        assert(before[d]);
                    }
                }
            }
        }
        k = k + 1;
    }
    occ
}

/// `sim` is the gas set up on a blank canvas, `n` particles of it spread
/// evenly, or as many as there are cells.
pub open spec fn set_up_blank<P: Physics>(p: P, params: Params<P::Real>, n: int, sim: Sim<P::Real>) -> bool {
    let total = params.h * params.w;
    let take = if n < total { n } else { total };
    &&& exists|cov: Seq<P::Real>, occ0: Seq<bool>, one: P::Real| #[trigger]
        set_up(p, params, cov, occ0, one, false, sim) && (forall|c: int|
            0 <= c < total ==> call_ensures(P::zero, (&p,), #[trigger] cov[c])) && call_ensures(P::one, (&p,), one) && occ0.len()
            == total && evenly_lit(occ0, take)
    &&& evenly_lit(sim.occ@, take)
    &&& sim.pos@.len() == take
    &&& count_lit(sim.occ@) == take
}

impl<R: Copy> Sim<R> {
    /// A gas on a blank canvas, `n_particles` of it spread evenly, or as many as
    /// there are cells.
    pub fn new_blank<P: Physics<Real = R>>(p: &P, params: Params<R>, n_particles: usize) -> (r: Option<Self>)
        requires
            keeps_length(*p),
            geometry_fits(params),
            params.h * params.w <= usize::MAX,
        ensures
            r matches Some(sim) ==> sim.wf() && set_up_blank(*p, params, n_particles as int, sim),
            r is None ==> exists|rc: usize| #[trigger]
                reach_is(*p, params.cutoff, rc) && !field_fits(
                    params.h as int,
                    params.w as int,
                    rc as int,
                    params.periodic,
                ),
    {
        let total = params.h * params.w;
        let take = if n_particles < total { n_particles } else { total };
        let zero = p.zero();
        let one = p.one();
        let cov = filled(zero, total);
        let occ = strided_occupancy(total, take);
        let ghost occ0 = occ@;
        let r = Sim::new(p, params, cov, occ, one, false);
        proof {
            if r is Some {
                let sim = r->Some_0;
                assert(set_up(*p, params, cov@, occ0, one, false, sim));
                assert(sim.occ@ =~= occ0) by {
                    assert forall|i: int| 0 <= i < total implies #[trigger] sim.occ@[i] == occ0[i] by {
                        assert(!sim.line_blocked@[i]);
                    }
                }
                law_lit_cells_are_the_particles(sim.layout().board());
            }
        }
        r
    }

    pub fn stats(&self) -> (s: Stats<R>)
        ensures
            s == (Stats {
                iteration: self.iteration,
                proposed: self.proposed,
                accepted: self.accepted,
                dead_proposals: self.dead_proposals,
                fail_streak: self.fail_streak,
                batch: self.live_batch,
                particles: self.pos@.len() as usize,
                energy: self.energy,
                temperature: self.params.temperature,
            }),
    {
        Stats {
            iteration: self.iteration,
            proposed: self.proposed,
            accepted: self.accepted,
            dead_proposals: self.dead_proposals,
            fail_streak: self.fail_streak,
            batch: self.live_batch,
            particles: self.pos.len(),
            energy: self.energy,
            temperature: self.params.temperature,
        }
    }

    pub fn params(&self) -> (r: &Params<R>)
        ensures
            *r == self.params,
    {
        &self.params
    }

    pub fn set_temperature(&mut self, t: R)
        ensures
            *final(self) == (Sim { params: Params { temperature: t, ..old(self).params }, ..*old(self) }),
            old(self).wf() ==> final(self).wf(),
    {
        self.params.temperature = t;
    }

    pub fn occupancy(&self) -> (r: &Vec<bool>)
        ensures
            *r == self.occ,
    {
        &self.occ
    }

    pub fn blocked(&self) -> (r: &Vec<bool>)
        ensures
            *r == self.blocked,
    {
        &self.blocked
    }

    pub fn u_edge(&self) -> (r: &Vec<R>)
        ensures
            *r == self.u_edge,
    {
        &self.u_edge
    }
}

/// Cells that lines close stay clear: no particle is set there, and none comes
/// there however long the gas is annealed.
pub proof fn law_lines_stay_clear<P: Physics>(
    p: P,
    params: Params<P::Real>,
    cov: Seq<P::Real>,
    occ0: Seq<bool>,
    line_density: P::Real,
    sim: Sim<P::Real>,
    n: nat,
    after: Gas<P::Real>,
    c: int,
)
    requires
        set_up(p, params, cov, occ0, line_density, true, sim),
        sim.wf(),
        ran(p, sim@, n, after),
        0 <= c < params.h * params.w,
        forall|closed: bool| #[trigger] solid_is(p, cov[c], closed) ==> closed,
    ensures
        !after.layout.occ[c],
{
    assert(sim.line_blocked@[c]);
    assert(sim.blocked@[c] && !sim.paint_blocked@[c]);
    assert(none_closed_in(sim.layout())) by {
        assert forall|i: int| 0 <= i < sim.layout().occ.len() && #[trigger] sim.layout().occ[i] implies !sim.layout().blocked[i] by {
            assert(sim.occ@[i] == (occ0[i] && !sim.blocked@[i]));
        }
    }
    law_annealing_conserves_particles(p, sim@, n, after);
    lemma_closed_stay(p, sim@, n, after);
}

/// Annealing opens and closes no cell.
proof fn lemma_closed_stay<P: Physics>(p: P, gas: Gas<P::Real>, n: nat, after: Gas<P::Real>)
    requires
        ran(p, gas, n, after),
    ensures
        after.layout.blocked == gas.layout.blocked,
        after.layout.params == gas.layout.params,
    decreases n,
{
    if n > 0 {
        let (mid, took) = choose|mid: Gas<P::Real>, took: bool| #[trigger]
            stepped(p, mid, after, took) && ran(p, gas, (n - 1) as nat, mid);
        lemma_closed_stay(p, gas, (n - 1) as nat, mid);
    }
}

} // verus!

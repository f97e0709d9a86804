//! Painting charge onto the lattice, and taking strokes back.

use crate::convolve::{convolve, convolve_full, full_fits, has_full, spread, spread_full};
use crate::kernel::{by_casting, coupling_kernel, lemma_ring_bound, radial, side, table_fits};
use crate::lattice::{count_lit, flat, grid, lemma_flat_bound, lemma_flat_parts};
use crate::patch::{has_place, lay, merge, merged, placed, plain_lines, Laid};
use crate::physics::{plus_step, sum, summed, Brush, PaintReport, Params, Physics};
use crate::scene::totals;
use crate::sim::{lemma_same_board, Layout, Sim, StrokeRecord, STROKE_UNDO_CAP};
use crate::spectrum::keeps_length;
use crate::stroke::{brushed, stroke_patch, StrokePatch, TooLarge};
use crate::terms::reach_is;
use vstd::prelude::*;

verus! {

/// What a stroke laid on the lattice.
#[verifier::ext_equal]
pub struct Record<R> {
    pub u: Seq<Laid<R>>,
    pub q: Seq<Laid<R>>,
    pub b: Seq<Laid<bool>>,
}

impl<R> View for StrokeRecord<R> {
    type V = Record<R>;

    open spec fn view(&self) -> Record<R> {
        Record { u: self.u_patches@, q: self.q_patches@, b: self.b_patches@ }
    }
}

/// All records of strokes, oldest first.
pub open spec fn records<R>(strokes: Seq<StrokeRecord<R>>) -> Seq<Record<R>> {
    strokes.map_values(|r: StrokeRecord<R>| r@)
}

/// What there is, as a sequence.
pub open spec fn at_most_one<T>(v: Option<T>) -> Seq<T> {
    match v {
        Some(v) => seq![v],
        None => Seq::empty(),
    }
}

/// The records once the brush touches down: a stroke that starts, or the first
/// of all, opens a new one, and the oldest makes room for it.
pub open spec fn opened<R>(before: Seq<Record<R>>, first: bool) -> Seq<Record<R>> {
    if first || before.len() == 0 {
        let more = before.push(Record { u: Seq::empty(), q: Seq::empty(), b: Seq::empty() });
        if more.len() > STROKE_UNDO_CAP {
            more.skip(1)
        } else {
            more
        }
    } else {
        before
    }
}

/// What the first `n` cells of a patch hold that lie on lit cells, in order.
pub open spec fn on_lit<R>(laid: Laid<R>, w: int, occ: Seq<bool>, n: nat) -> Seq<R>
    decreases n,
{
    if n == 0 {
        Seq::empty()
    } else {
        let (i, j) = ((n - 1) / laid.cols@.len() as int, (n - 1) % laid.cols@.len() as int);
        let less = on_lit(laid, w, occ, (n - 1) as nat);
        if occ[laid.under(w, i, j)] {
            less.push(laid.cells@[n - 1])
        } else {
            less
        }
    }
}

/// `de` is what a change `laid` of the fixed potential is worth to the
/// particles.
pub open spec fn worth<P: Physics>(p: P, layout: Layout<P::Real>, laid: Laid<P::Real>, de: P::Real) -> bool {
    let under = on_lit(laid, layout.params.w as int, layout.occ, laid.cells@.len());
    exists|parts: Seq<P::Real>| #[trigger]
        summed(p, parts, de) && parts.len() == under.len() && (forall|k: int|
            0 <= k < parts.len() ==> call_ensures(P::times, (&p, layout.params.charge, under[k]), #[trigger] parts[k]))
}

/// `u` is the potential of lines and paint, worked out afresh.
pub open spec fn cast_afresh<P: Physics>(
    p: P,
    params: Params<P::Real>,
    cov: Seq<P::Real>,
    density: P::Real,
    paint: Seq<P::Real>,
    table: Seq<P::Real>,
    rc: int,
    u: Seq<P::Real>,
) -> bool {
    exists|line: Seq<P::Real>, edge: Seq<P::Real>| #[trigger]
        cast_from(p, cov, density, paint, line, edge) && spread(
            p,
            edge,
            params.h as int,
            params.w as int,
            table,
            rc,
            params.periodic,
            u,
        )
}

/// `edge` is the charge of lines and paint together, and `line` that of lines.
pub open spec fn cast_from<P: Physics>(
    p: P,
    cov: Seq<P::Real>,
    density: P::Real,
    paint: Seq<P::Real>,
    line: Seq<P::Real>,
    edge: Seq<P::Real>,
) -> bool {
    &&& line.len() == cov.len()
    &&& edge.len() == cov.len()
    &&& forall|i: int| 0 <= i < cov.len() ==> call_ensures(P::times, (&p, cov[i], density), #[trigger] line[i])
    &&& forall|i: int| 0 <= i < cov.len() ==> call_ensures(P::plus, (&p, line[i], paint[i]), #[trigger] edge[i])
}

impl<R: Copy> Sim<R> {
    /// The fixed potential of lines and paint, worked out afresh.
    pub(crate) fn rebuild_u_edge<P: Physics<Real = R>>(&self, p: &P) -> (u: Vec<R>)
        requires
            keeps_length(*p),
            self.whole(),
        ensures
            u@.len() == self.cells(),
            cast_afresh(
                *p,
                self.params,
                self.cov@,
                self.line_density,
                self.paint@,
                self.kernel_edge@,
                self.rc as int,
                u@,
            ),
    {
        let n = self.cov.len();
        let density = self.line_density;
        let mut edge: Vec<R> = Vec::with_capacity(n);
        let ghost mut line: Seq<R> = Seq::empty();
        let mut i: usize = 0;
        while i < n
            invariant
                i <= n == self.cov@.len(),
                self.paint@.len() == n,
                line.len() == i,
                edge@.len() == i,
                forall|k: int| 0 <= k < i ==> call_ensures(P::times, (p, self.cov@[k], density), #[trigger] line[k]),
                forall|k: int| 0 <= k < i ==> call_ensures(P::plus, (p, line[k], self.paint@[k]), #[trigger] edge@[k]),
            decreases n - i,
        {
            let charge = p.times(self.cov[i], density);
            edge.push(p.plus(charge, self.paint[i]));
            proof {
                line = line.push(charge);
            }
            i = i + 1;
        }
        assert(cast_from(*p, self.cov@, density, self.paint@, line, edge@));
        convolve(p, &edge, self.params.h, self.params.w, &self.kernel_edge, self.rc, self.params.periodic)
    }
}

/// `laid` covers the whole lattice, and holds what each cell changed by from
/// `before` to `after`.
pub open spec fn change_over_all<P: Physics>(p: P, h: int, w: int, before: Seq<P::Real>, after: Seq<P::Real>, laid: Laid<P::Real>) -> bool {
    &&& laid.rows@ == Seq::new(h as nat, |i: int| i as usize)
    &&& laid.cols@ == Seq::new(w as nat, |j: int| j as usize)
    &&& laid.cells@.len() == h * w
    &&& forall|c: int| 0 <= c < h * w ==> call_ensures(P::minus, (&p, after[c], before[c]), #[trigger] laid.cells@[c])
}

/// What each cell of the lattice changed by, as a patch.
fn change_of<P: Physics>(p: &P, h: usize, w: usize, before: &Vec<P::Real>, after: &Vec<P::Real>) -> (laid: Laid<P::Real>)
    requires
        before@.len() == h * w,
        after@.len() == h * w,
    ensures
        change_over_all(*p, h as int, w as int, before@, after@, laid),
        laid.wf(h as int, w as int),
{
    let n = before.len();
    let mut cells: Vec<P::Real> = Vec::with_capacity(n);
    let mut i: usize = 0;
    while i < n
        invariant
            i <= n == before@.len(),
            after@.len() == n,
            cells@.len() == i,
            forall|c: int| 0 <= c < i ==> call_ensures(P::minus, (p, after@[c], before@[c]), #[trigger] cells@[c]),
        decreases n - i,
    {
        cells.push(p.minus(after[i], before[i]));
        i = i + 1;
    }
    let laid = Laid { rows: plain_lines(0, h), cols: plain_lines(0, w), cells };
    assert(laid.rows@ =~= Seq::new(h as nat, |i: int| i as usize));
    assert(laid.cols@ =~= Seq::new(w as nat, |j: int| j as usize));
    laid
}

/// What a change of the fixed potential is worth to the particles.
fn worth_of<P: Physics>(
    p: &P,
    charge: P::Real,
    h: usize,
    w: usize,
    occ: &Vec<bool>,
    laid: &Laid<P::Real>,
    Ghost(layout): Ghost<Layout<P::Real>>,
) -> (de: P::Real)
    requires
        layout.params.charge == charge,
        layout.params.w == w,
        layout.occ == occ@,
        occ@.len() == h * w,
        laid.wf(h as int, w as int),
    ensures
        worth(*p, layout, *laid, de),
{
    let cells = occ.len();
    let size = laid.cells.len();
    let n = laid.cols.len();
    let mut parts: Vec<P::Real> = Vec::new();
    let mut k: usize = 0;
    let mut i: usize = 0;
    let mut j: usize = 0;
    proof {
        if size > 0 {
            assert(n > 0 && laid.rows@.len() > 0) by (nonlinear_arith)
                requires
                    laid.rows@.len() * n > 0,
                    n >= 0,
                    laid.rows@.len() >= 0,
            ;
        }
    }
    while k < size
        invariant
            layout.params.charge == charge,
            layout.params.w == w,
            layout.occ == occ@,
            occ@.len() == cells == h * w,
            laid.wf(h as int, w as int),
            size == laid.cells@.len(),
            n == laid.cols@.len(),
            k <= size,
            k == i * n + j,
            k < size ==> j < n && i < laid.rows@.len(),
            j <= n,
            parts@.len() == on_lit(*laid, w as int, occ@, k as nat).len(),
            forall|l: int|
                0 <= l < parts@.len() ==> call_ensures(
                    P::times,
                    (p, charge, on_lit(*laid, w as int, occ@, k as nat)[l]),
                    #[trigger] parts@[l],
                ),
        decreases size - k,
    {
        let row = laid.rows[i];
        let col = laid.cols[j];
        proof {
            lemma_flat_parts(n as int, i as int, j as int);
            lemma_flat_bound(h as int, w as int, row as int, col as int);
        }
        let ghost less = on_lit(*laid, w as int, occ@, k as nat);
        if occ[row * w + col] {
            parts.push(p.times(charge, laid.cells[k]));
        }
        k = k + 1;
        j = j + 1;
        proof {
            let more = on_lit(*laid, w as int, occ@, k as nat);
            assert(more == less || more == less.push(laid.cells@[k - 1]));
            assert forall|l: int| 0 <= l < parts@.len() implies call_ensures(
                P::times,
                (p, charge, more[l]),
                #[trigger] parts@[l],
            ) by {
                if l < less.len() {
                    assert(more[l] == less[l]);
                }
            }
        }
        if j == n {
            proof {
                assert((i + 1) * n == i * n + n) by (nonlinear_arith);
                if k < size {
                    assert(i + 1 < laid.rows@.len()) by (nonlinear_arith)
                        requires
                            (i + 1) * n < laid.rows@.len() * n,
                            n >= 0,
                    ;
                }
            }
            j = 0;
            i = i + 1;
        }
    }
    sum(p, &parts)
}

/// A cell is closed from now on if the patch says so.
pub open spec fn or_step() -> spec_fn(bool, bool, bool) -> bool {
    |a: bool, b: bool, r: bool| r == (a || b)
}

/// `newly` marks the cells that paint closes: those covered by more than paint
/// lets through that were open so far.
pub open spec fn marks<P: Physics>(p: P, w: int, blocked: Seq<bool>, pen: P::Real, cov: Laid<P::Real>, newly: Laid<bool>) -> bool {
    &&& newly.rows@ == cov.rows@
    &&& newly.cols@ == cov.cols@
    &&& newly.cells@.len() == cov.cells@.len()
    &&& forall|i: int, j: int| #[trigger]
        newly.has(i, j) ==> exists|over: bool| #[trigger]
            call_ensures(P::exceeds, (&p, cov.at(i, j), pen), over) && newly.at(i, j) == (over && !blocked[cov.under(w, i, j)])
}

/// Paint that covers cells by `cov` closes what it does not let particles
/// through; `bs` holds the marks of the cells closed, if any, and `count` says
/// how many they are.
pub open spec fn closed<P: Physics>(
    p: P,
    s0: Sim<P::Real>,
    s1: Sim<P::Real>,
    pen: P::Real,
    cov: Laid<P::Real>,
    bs: Seq<Laid<bool>>,
    count: int,
) -> bool {
    exists|one: P::Real, shuts: bool| #[trigger]
        call_ensures(P::exceeds, (&p, one, pen), shuts) && call_ensures(P::one, (&p,), one) && if shuts {
            exists|newly: Laid<bool>| #[trigger] closed_by(p, s0, s1, pen, cov, bs, count, newly)
        } else {
            bs.len() == 0 && count == 0 && s1.paint_blocked@ == s0.paint_blocked@ && s1.blocked@ == s0.blocked@
        }
}

pub open spec fn closed_by<P: Physics>(
    p: P,
    s0: Sim<P::Real>,
    s1: Sim<P::Real>,
    pen: P::Real,
    cov: Laid<P::Real>,
    bs: Seq<Laid<bool>>,
    count: int,
    newly: Laid<bool>,
) -> bool {
    let w = s0.params.w as int;
    &&& marks(p, w, s0.blocked@, pen, cov, newly)
    &&& merged(or_step(), w, newly, s0.paint_blocked@, s1.paint_blocked@)
    &&& merged(or_step(), w, newly, s0.blocked@, s1.blocked@)
    &&& count == count_lit(newly.cells@)
    &&& bs == (if count > 0 {
        seq![newly]
    } else {
        Seq::empty()
    })
}

/// How many of `cells` are lit.
pub fn lit_among(cells: &Vec<bool>) -> (n: usize)
    ensures
        n == count_lit(cells@),
{
    let mut n: usize = 0;
    let mut i: usize = 0;
    proof {
        assert(cells@.take(0) =~= Seq::empty());
    }
    while i < cells.len()
        invariant
            i <= cells@.len(),
            n <= i,
            n == count_lit(cells@.take(i as int)),
        decreases cells@.len() - i,
    {
        proof {
            assert(cells@.take(i + 1).drop_last() =~= cells@.take(i as int));
        }
        if cells[i] {
            n = n + 1;
        }
        i = i + 1;
    }
    assert(cells@.take(i as int) =~= cells@);
    n
}

fn copied(lines: &Vec<usize>) -> (r: Vec<usize>)
    ensures
        r@ == lines@,
{
    let mut r: Vec<usize> = Vec::with_capacity(lines.len());
    let mut i: usize = 0;
    while i < lines.len()
        invariant
            i <= lines@.len(),
            r@ =~= lines@.take(i as int),
        decreases lines@.len() - i,
    {
        r.push(lines[i]);
        i = i + 1;
    }
    r
}

impl<R: Copy> Sim<R> {
    /// Closes the cells that paint does not let particles through. Returns
    /// their marks, if there are any, and how many they are.
    fn close_cells<P: Physics<Real = R>>(&mut self, p: &P, pen: R, cov: &Laid<R>) -> (r: (Option<Laid<bool>>, usize))
        requires
            old(self).whole(),
            cov.wf(old(self).params.h as int, old(self).params.w as int),
        ensures
            *final(self) == (Sim {
                paint_blocked: final(self).paint_blocked,
                blocked: final(self).blocked,
                ..*old(self)
            }),
            closed(
                *p,
                *old(self),
                *final(self),
                pen,
                *cov,
                at_most_one(r.0),
                r.1 as int,
            ),
            r.0 matches Some(newly) ==> newly.wf(old(self).params.h as int, old(self).params.w as int),
    {
        let ghost before = *self;
        let one = p.one();
        let shuts = p.exceeds(one, pen);
        assert(call_ensures(P::exceeds, (p, one, pen), shuts));
        if !shuts {
            return (None, 0);
        }
        let (h, w) = (self.params.h, self.params.w);
        let cells = self.blocked.len();
        let size = cov.cells.len();
        let (m, n) = (cov.rows.len(), cov.cols.len());
        let blocked = &self.blocked;
        let ghost was = blocked@;
        let mark = |i: usize, j: usize| -> (v: bool)
            requires
                i < m,
                j < n,
            ensures
                exists|over: bool| #[trigger]
                    call_ensures(P::exceeds, (p, cov.at(i as int, j as int), pen), over) && v == (over && !blocked@[cov.under(
                        w as int,
                        i as int,
                        j as int,
                    )]),
            {
                proof {
                    lemma_flat_bound(h as int, w as int, cov.rows@[i as int] as int, cov.cols@[j as int] as int);
                    lemma_flat_bound(m as int, n as int, i as int, j as int);
                }
                let over = p.exceeds(cov.cells[i * n + j], pen);
                assert(call_ensures(P::exceeds, (p, cov.cells@[flat(n as int, i as int, j as int)], pen), over));
                over && !blocked[cov.rows[i] * w + cov.cols[j]]
            };
        let marked = grid(m, n, &mark);
        let newly = Laid { rows: copied(&cov.rows), cols: copied(&cov.cols), cells: marked };
        proof {
            assert forall|i: int, j: int| #[trigger] newly.has(i, j) implies exists|over: bool| #[trigger]
                call_ensures(P::exceeds, (p, cov.at(i, j), pen), over) && newly.at(i, j) == (over && !was[cov.under(
                    w as int,
                    i,
                    j,
                )]) by {
                assert(mark.ensures((i as usize, j as usize), marked@[flat(n as int, i as usize as int, j as usize as int)]));
            }
            assert(marks(*p, w as int, was, pen, *cov, newly));
        }
        let either = |a: bool, b: bool| -> (r: bool)
            ensures
                r == (a || b),
            { a || b };
        merge(&mut self.paint_blocked, h, w, &newly, &either, Ghost(or_step()));
        merge(&mut self.blocked, h, w, &newly, &either, Ghost(or_step()));
        let count = lit_among(&newly.cells);
        proof {
            let bs = if count > 0 {
                seq![newly]
            } else {
                Seq::empty()
            };
            assert(closed_by(*p, before, *self, pen, *cov, bs, count as int, newly));
        }
        if count > 0 {
            (Some(newly), count)
        } else {
            (None, count)
        }
    }
}

/// The potential that a patch casts, with its corner `rp` cells further out,
/// fits the machine.
pub open spec fn cast_fits<R>(patch: StrokePatch<R>, rp: int) -> bool {
    &&& table_fits(rp)
    &&& full_fits(patch.ph as int, patch.pw as int, side(rp), side(rp))
    &&& i64::MIN <= patch.y0 - rp
    &&& i64::MIN <= patch.x0 - rp
    &&& patch.ph + 2 * rp <= i64::MAX
    &&& patch.pw + 2 * rp <= i64::MAX
    &&& patch.y0 + patch.ph + rp <= i64::MAX
    &&& patch.x0 + patch.pw + rp <= i64::MAX
}

fn has_cast<R>(patch: &StrokePatch<R>, rp: usize, ks: usize) -> (r: bool)
    requires
        table_fits(rp as int),
        ks == side(rp as int),
    ensures
        r == cast_fits(*patch, rp as int),
{
    proof {
        lemma_ring_bound(rp as int, 0, 0);
    }
    let (low, high): (i128, i128) = (i64::MIN as i128, i64::MAX as i128);
    let (y0, x0): (i128, i128) = (patch.y0 as i128, patch.x0 as i128);
    let (ph, pw): (i128, i128) = (patch.ph as i128, patch.pw as i128);
    let far: i128 = rp as i128;
    has_full(patch.ph, patch.pw, ks, ks) && low <= y0 - far && low <= x0 - far && ph + 2 * far <= high && pw + 2 * far <= high
        && y0 + ph + far <= high && x0 + pw + far <= high
}

/// The patch has a place on the lattice of `sim`.
pub open spec fn hits<R>(sim: Sim<R>, patch: StrokePatch<R>) -> bool {
    has_place(
        patch.y0 as int,
        patch.x0 as int,
        patch.ph as int,
        patch.pw as int,
        sim.params.h as int,
        sim.params.w as int,
        sim.params.periodic,
    )
}

/// The potential of painted charge `patch`, `rp` cells wider on each side, has
/// a place on the lattice of `sim`.
pub open spec fn hits_wide<R>(sim: Sim<R>, patch: StrokePatch<R>, rp: int) -> bool {
    has_place(
        patch.y0 - rp,
        patch.x0 - rp,
        patch.ph + 2 * rp,
        patch.pw + 2 * rp,
        sim.params.h as int,
        sim.params.w as int,
        sim.params.periodic,
    )
}

/// The fixed potential of `s0` takes up that of painted charge in `s1`, which
/// is worth `de` to the particles. `u` holds the change: the patch that the
/// charge casts where it is local, and where the torus is too small for that,
/// and everything is worked out afresh, what came of that in every cell.
pub open spec fn repotentialed<P: Physics>(
    p: P,
    s0: Sim<P::Real>,
    s1: Sim<P::Real>,
    patch: StrokePatch<P::Real>,
    brush: Brush<P::Real>,
    u: Laid<P::Real>,
    de: P::Real,
) -> bool {
    exists|rp: usize, table: Seq<P::Real>, du: Seq<P::Real>| #[trigger]
        repotentialed_by(p, s0, s1, patch, brush, u, de, rp, table, du)
}

pub open spec fn repotentialed_by<P: Physics>(
    p: P,
    s0: Sim<P::Real>,
    s1: Sim<P::Real>,
    patch: StrokePatch<P::Real>,
    brush: Brush<P::Real>,
    u: Laid<P::Real>,
    de: P::Real,
    rp: usize,
    table: Seq<P::Real>,
    du: Seq<P::Real>,
) -> bool {
    let (h, w, n) = (s0.params.h as int, s0.params.w as int, side(rp as int));
    &&& reach_is(p, brush.coupling, rp)
    &&& cast_fits(patch, rp as int)
    &&& radial(table, rp as int, by_casting(p, s0.params.strength, s0.params.screening, brush.coupling, brush.hardness))
    &&& spread_full(p, patch.dq@, patch.ph as int, patch.pw as int, table, n, n, du)
    &&& if hits_wide(s0, patch, rp as int) {
        &&& placed(
            du,
            patch.y0 - rp,
            patch.x0 - rp,
            patch.ph + 2 * rp,
            patch.pw + 2 * rp,
            h,
            w,
            s0.params.periodic,
            u,
        )
        &&& merged(plus_step(p), w, u, s0.u_edge@, s1.u_edge@)
        &&& worth(p, s0.layout(), u, de)
        &&& call_ensures(P::plus, (&p, s0.energy, de), s1.energy)
    } else {
        &&& change_over_all(p, h, w, s0.u_edge@, s1.u_edge@, u)
        &&& cast_afresh(
            p,
            s0.params,
            s0.cov@,
            s0.line_density,
            s1.paint@,
            s0.kernel_edge@,
            s0.rc as int,
            s1.u_edge@,
        )
        &&& totals(p, (Layout { u_edge: s1.u_edge@, ..s0.layout() }), s1.energy)
        &&& call_ensures(P::minus, (&p, s1.energy, s0.energy), de)
    }
}

/// How many cells of `cov` are covered at all is `n`.
pub open spec fn covered<P: Physics>(p: P, cov: Seq<P::Real>, n: int) -> bool {
    exists|z: P::Real, flags: Seq<bool>| #[trigger] covered_by(p, cov, n, z, flags)
}

pub open spec fn covered_by<P: Physics>(p: P, cov: Seq<P::Real>, n: int, z: P::Real, flags: Seq<bool>) -> bool {
    &&& call_ensures(P::zero, (&p,), z)
    &&& flags.len() == cov.len()
    &&& forall|i: int| 0 <= i < cov.len() ==> call_ensures(P::exceeds, (&p, cov[i], z), #[trigger] flags[i])
    &&& n == count_lit(flags)
}

/// Nothing was painted.
pub open spec fn blank_report<P: Physics>(p: P, report: PaintReport<P::Real>) -> bool {
    &&& report.painted_cells == 0
    &&& report.blocked_new == 0
    &&& call_ensures(P::zero, (&p,), report.charge)
    &&& call_ensures(P::zero, (&p,), report.de_field)
}

/// `s1` is `s0` with a patch of paint laid on it, of which `report` tells.
pub open spec fn laid_down<P: Physics>(
    p: P,
    s0: Sim<P::Real>,
    s1: Sim<P::Real>,
    patch: StrokePatch<P::Real>,
    brush: Brush<P::Real>,
    first: bool,
    report: PaintReport<P::Real>,
) -> bool {
    if hits(s0, patch) {
        exists|q: Laid<P::Real>, c: Laid<P::Real>, u: Laid<P::Real>, bs: Seq<Laid<bool>>| #[trigger]
            laid_down_by(p, s0, s1, patch, brush, first, report, q, c, u, bs)
    } else {
        &&& s1 == (Sim { strokes: s1.strokes, ..s0 })
        &&& records(s1.strokes@) == opened(records(s0.strokes@), first)
        &&& blank_report(p, report)
    }
}

pub open spec fn laid_down_by<P: Physics>(
    p: P,
    s0: Sim<P::Real>,
    s1: Sim<P::Real>,
    patch: StrokePatch<P::Real>,
    brush: Brush<P::Real>,
    first: bool,
    report: PaintReport<P::Real>,
    q: Laid<P::Real>,
    c: Laid<P::Real>,
    u: Laid<P::Real>,
    bs: Seq<Laid<bool>>,
) -> bool {
    let (h, w, periodic) = (s0.params.h as int, s0.params.w as int, s0.params.periodic);
    let (y0, x0, ph, pw) = (patch.y0 as int, patch.x0 as int, patch.ph as int, patch.pw as int);
    let base = opened(records(s0.strokes@), first);
    &&& s1 == (Sim {
        strokes: s1.strokes,
        paint: s1.paint,
        u_edge: s1.u_edge,
        energy: s1.energy,
        paint_blocked: s1.paint_blocked,
        blocked: s1.blocked,
        ..s0
    })
    &&& placed(patch.dq@, y0, x0, ph, pw, h, w, periodic, q)
    &&& placed(patch.cov@, y0, x0, ph, pw, h, w, periodic, c)
    &&& merged(plus_step(p), w, q, s0.paint@, s1.paint@)
    &&& repotentialed(p, s0, s1, patch, brush, u, report.de_field)
    &&& closed(p, s0, s1, brush.penetrability, c, bs, report.blocked_new as int)
    &&& records(s1.strokes@) == base.update(
        base.len() - 1,
        (Record { u: base.last().u.push(u), q: base.last().q.push(q), b: base.last().b + bs }),
    )
    &&& covered(p, c.cells@, report.painted_cells as int)
    &&& summed(p, q.cells@, report.charge)
}

fn blank<P: Physics>(p: &P) -> (report: PaintReport<P::Real>)
    ensures
        blank_report(*p, report),
{
    PaintReport { painted_cells: 0, charge: p.zero(), blocked_new: 0, de_field: p.zero() }
}

/// How many cells are covered at all.
fn cover_count<P: Physics>(p: &P, cov: &Vec<P::Real>) -> (n: usize)
    ensures
        covered(*p, cov@, n as int),
{
    let zero = p.zero();
    let mut flags: Vec<bool> = Vec::with_capacity(cov.len());
    let mut i: usize = 0;
    while i < cov.len()
        invariant
            i <= cov@.len(),
            flags@.len() == i,
            forall|k: int| 0 <= k < i ==> call_ensures(P::exceeds, (p, cov@[k], zero), #[trigger] flags@[k]),
        decreases cov@.len() - i,
    {
        flags.push(p.exceeds(cov[i], zero));
        i = i + 1;
    }
    let n = lit_among(&flags);
    assert(covered_by(*p, cov@, n as int, zero, flags@));
    n
}

impl<R: Copy> Sim<R> {
    /// Opens the record of a stroke where one is due.
    fn open_record(&mut self, first: bool)
        requires
            old(self).wf(),
        ensures
            *final(self) == (Sim { strokes: final(self).strokes, ..*old(self) }),
            records(final(self).strokes@) == opened(records(old(self).strokes@), first),
            final(self).wf(),
            final(self).strokes@.len() > 0,
    {
        let ghost before = records(self.strokes@);
        if first || self.strokes.len() == 0 {
            let rec = StrokeRecord { u_patches: Vec::new(), q_patches: Vec::new(), b_patches: Vec::new() };
            assert(rec@ =~= (Record::<R> { u: Seq::empty(), q: Seq::empty(), b: Seq::empty() }));
            self.strokes.push(rec);
            assert(records(self.strokes@) =~= before.push(rec@));
            if self.strokes.len() > STROKE_UNDO_CAP {
                let ghost more = self.strokes@;
                self.strokes.remove(0);
                assert(self.strokes@ =~= more.skip(1));
                assert(records(self.strokes@) =~= records(more).skip(1));
            }
        }
    }

    /// Adds patches to the record of the current stroke.
    fn extend_record(&mut self, u: Laid<R>, q: Laid<R>, b: Option<Laid<bool>>)
        requires
            old(self).wf(),
            old(self).strokes@.len() > 0,
            u.wf(old(self).params.h as int, old(self).params.w as int),
            q.wf(old(self).params.h as int, old(self).params.w as int),
            b matches Some(b) ==> b.wf(old(self).params.h as int, old(self).params.w as int),
        ensures
            *final(self) == (Sim { strokes: final(self).strokes, ..*old(self) }),
            ({
                let base = records(old(self).strokes@);
                records(final(self).strokes@) == base.update(
                    base.len() - 1,
                    (Record {
                        u: base.last().u.push(u),
                        q: base.last().q.push(q),
                        b: base.last().b + at_most_one(b),
                    }),
                )
            }),
            final(self).wf(),
    {
        let ghost strokes = self.strokes@;
        let ghost base = records(strokes);
        let mut rec = match self.strokes.pop() {
            Some(rec) => rec,
            None => {
                return;
            },
        };
        let ghost was = rec@;
        assert(was == base.last());
        let ghost bs = at_most_one(b);
        rec.q_patches.push(q);
        rec.u_patches.push(u);
        match b {
            Some(b) => rec.b_patches.push(b),
            None => {},
        }
        assert(rec@ =~= (Record { u: was.u.push(u), q: was.q.push(q), b: was.b + bs }));
        self.strokes.push(rec);
        assert(records(self.strokes@) =~= base.update(base.len() - 1, rec@));
        proof {
            let (h, w) = (self.params.h as int, self.params.w as int);
            let last = strokes.last();
            assert(last.wf(h, w));
            assert(rec.wf(h, w)) by {
                assert forall|i: int| 0 <= i < rec.u_patches@.len() implies (#[trigger] rec.u_patches@[i]).wf(h, w) by {
                    if i < was.u.len() {
                        assert(rec.u_patches@[i] == last.u_patches@[i]);
                    }
                }
                assert forall|i: int| 0 <= i < rec.q_patches@.len() implies (#[trigger] rec.q_patches@[i]).wf(h, w) by {
                    if i < was.q.len() {
                        assert(rec.q_patches@[i] == last.q_patches@[i]);
                    }
                }
                assert forall|i: int| 0 <= i < rec.b_patches@.len() implies (#[trigger] rec.b_patches@[i]).wf(h, w) by {
                    if i < was.b.len() {
                        assert(rec.b_patches@[i] == last.b_patches@[i]);
                    }
                }
            }
            assert forall|i: int| 0 <= i < self.strokes@.len() implies (#[trigger] self.strokes@[i]).wf(h, w) by {
                if i < self.strokes@.len() - 1 {
                    assert(self.strokes@[i] == strokes[i]);
                }
            }
        }
    }
}

/// The outcome of laying a patch of paint on `s0`: `s1` and a report, or that
/// the potential it casts reaches over more cells than the machine has room
/// for.
pub open spec fn lays<P: Physics>(
    p: P,
    s0: Sim<P::Real>,
    s1: Sim<P::Real>,
    patch: StrokePatch<P::Real>,
    brush: Brush<P::Real>,
    first: bool,
    r: Result<PaintReport<P::Real>, TooLarge>,
) -> bool {
    match r {
        Ok(report) => laid_down(p, s0, s1, patch, brush, first, report),
        Err(_) => {
            &&& s1 == s0
            &&& hits(s0, patch)
            &&& exists|rp: usize| #[trigger] reach_is(p, brush.coupling, rp) && !cast_fits(patch, rp as int)
        },
    }
}

/// The outcome of a stroke of the brush along `points`.
pub open spec fn paints<P: Physics>(
    p: P,
    s0: Sim<P::Real>,
    s1: Sim<P::Real>,
    points: Seq<[P::Real; 2]>,
    brush: Brush<P::Real>,
    first: bool,
    r: Result<PaintReport<P::Real>, TooLarge>,
) -> bool {
    exists|stroke: Result<Option<StrokePatch<P::Real>>, TooLarge>| #[trigger]
        brushed(p, points, brush, first, stroke) && match stroke {
            Err(_) => r is Err && s1 == s0,
            Ok(None) => s1 == s0 && r is Ok && blank_report(p, r->Ok_0),
            Ok(Some(patch)) => lays(p, s0, s1, patch, brush, first, r),
        }
}

impl<R: Copy> Sim<R> {
    /// Takes up a patch of potential, or works the potential out afresh where
    /// there is none. Returns what the change is worth, and the change.
    fn take_up_potential<P: Physics<Real = R>>(&mut self, p: &P, ul: Option<Laid<R>>) -> (r: (R, Laid<R>))
        requires
            keeps_length(*p),
            old(self).wf(),
            ul matches Some(u) ==> u.wf(old(self).params.h as int, old(self).params.w as int),
        ensures
            final(self).wf(),
            *final(self) == (Sim { u_edge: final(self).u_edge, energy: final(self).energy, ..*old(self) }),
            r.1.wf(old(self).params.h as int, old(self).params.w as int),
            match ul {
                Some(u) => {
                    &&& r.1 == u
                    &&& merged(plus_step(*p), old(self).params.w as int, u, old(self).u_edge@, final(self).u_edge@)
                    &&& worth(*p, old(self).layout(), u, r.0)
                    &&& call_ensures(P::plus, (p, old(self).energy, r.0), final(self).energy)
                },
                None => {
                    &&& change_over_all(
                        *p,
                        old(self).params.h as int,
                        old(self).params.w as int,
                        old(self).u_edge@,
                        final(self).u_edge@,
                        r.1,
                    )
                    &&& cast_afresh(
                        *p,
                        old(self).params,
                        old(self).cov@,
                        old(self).line_density,
                        old(self).paint@,
                        old(self).kernel_edge@,
                        old(self).rc as int,
                        final(self).u_edge@,
                    )
                    &&& totals(*p, (Layout { u_edge: final(self).u_edge@, ..old(self).layout() }), final(self).energy)
                    &&& call_ensures(P::minus, (p, final(self).energy, old(self).energy), r.0)
                },
            },
    {
        let ghost before = *self;
        let (h, w) = (self.params.h, self.params.w);
        match ul {
            Some(u) => {
                let add = |a: R, b: R| -> (r: R)
                    ensures
                        call_ensures(P::plus, (p, a, b), r),
                    { p.plus(a, b) };
                merge(&mut self.u_edge, h, w, &u, &add, Ghost(plus_step(*p)));
                let de = worth_of(p, self.params.charge, h, w, &self.occ, &u, Ghost(before.layout()));
                self.energy = p.plus(self.energy, de);
                (de, u)
            },
            None => {
                let energy = self.energy;
                let fresh = self.rebuild_u_edge(p);
                let change = change_of(p, h, w, &self.u_edge, &fresh);
                self.u_edge = fresh;
                self.energy = self.total_energy(p);
                (p.minus(self.energy, energy), change)
            },
        }
    }

    /// Lays a patch of paint on the lattice: its charge, the potential that it
    /// casts and the cells that it closes.
    pub fn lay_stroke<P: Physics<Real = R>>(
        &mut self,
        p: &P,
        patch: &StrokePatch<R>,
        brush: &Brush<R>,
        first: bool,
    ) -> (r: Result<PaintReport<R>, TooLarge>)
        requires
            keeps_length(*p),
            old(self).wf(),
            patch.wf(),
        ensures
            final(self).wf(),
            lays(*p, *old(self), *final(self), *patch, *brush, first, r),
            r is Err ==> *final(self) == *old(self),
    {
        let ghost s0 = *self;
        let (h, w, periodic) = (self.params.h, self.params.w, self.params.periodic);
        let (y0, x0, ph, pw) = (patch.y0, patch.x0, patch.ph, patch.pw);
        let (q, c) = match (lay(&patch.dq, y0, x0, ph, pw, h, w, periodic), lay(&patch.cov, y0, x0, ph, pw, h, w, periodic)) {
            (Some(q), Some(c)) => (q, c),
            _ => {
                self.open_record(first);
                return Ok(blank(p));
            },
        };
        let (rp, table, n) = match coupling_kernel(
            p,
            self.params.strength,
            self.params.screening,
            brush.coupling,
            brush.hardness,
        ) {
            Some(k) => k,
            None => {
                return Err(TooLarge);
            },
        };
        assert(reach_is(*p, brush.coupling, rp));
        if !has_cast(patch, rp, n) {
            return Err(TooLarge);
        }
        proof {
            lemma_ring_bound(rp as int, 0, 0);
        }
        let (du, uh, uw) = convolve_full(p, &patch.dq, ph, pw, &table, n, n);
        let ul = lay(&du, y0 - rp as i64, x0 - rp as i64, uh, uw, h, w, periodic);
        self.open_record(first);
        let add = |a: R, b: R| -> (r: R)
            ensures
                call_ensures(P::plus, (p, a, b), r),
            { p.plus(a, b) };
        merge(&mut self.paint, h, w, &q, &add, Ghost(plus_step(*p)));
        let ghost s1 = *self;
        let (de_field, u) = self.take_up_potential(p, ul);
        let ghost s2 = *self;
        let (newly, blocked_new) = self.close_cells(p, brush.penetrability, &c);
        proof {
            lemma_closing_keeps_wf(*p, s2, *self, brush.penetrability, c, at_most_one(newly), blocked_new as int);
        }
        let painted_cells = cover_count(p, &c.cells);
        let charge = sum(p, &q.cells);
        let report = PaintReport { painted_cells, charge, blocked_new, de_field };
        let ghost bs = at_most_one(newly);
        let ghost (cells, change) = (q, u);
        let ghost s3 = *self;
        self.extend_record(u, q, newly);
        proof {
            assert(repotentialed_by(*p, s0, *self, *patch, *brush, change, de_field, rp, table@, du@));
            lemma_closed_frame(*p, s2, s3, s0, *self, brush.penetrability, c, bs, blocked_new as int);
            assert(laid_down_by(*p, s0, *self, *patch, *brush, first, report, cells, c, change, bs));
        }
        Ok(report)
    }

    /// Lays a stroke segment along `points`, each given as row and column, onto
    /// the paint layer. `first` opens a new record for undo. A stroke that
    /// reaches over more cells than the machine has room for is refused.
    pub fn paint_stroke<P: Physics<Real = R>>(
        &mut self,
        p: &P,
        points: &Vec<[R; 2]>,
        brush: &Brush<R>,
        first: bool,
    ) -> (r: Result<PaintReport<R>, TooLarge>)
        requires
            keeps_length(*p),
            old(self).wf(),
        ensures
            final(self).wf(),
            paints(*p, *old(self), *final(self), points@, *brush, first, r),
            r is Err ==> *final(self) == *old(self),
    {
        let stroke = stroke_patch(p, points, brush, first);
        let ghost was = stroke;
        match stroke {
            Err(_) => Err(TooLarge),
            Ok(None) => Ok(blank(p)),
            Ok(Some(patch)) => {
                let r = self.lay_stroke(p, &patch, brush, first);
                assert(brushed(*p, points@, *brush, first, was));
                r
            },
        }
    }
}

/// Closing cells keeps the parts of a gas in agreement.
proof fn lemma_closing_keeps_wf<P: Physics>(
    p: P,
    s0: Sim<P::Real>,
    s1: Sim<P::Real>,
    pen: P::Real,
    cov: Laid<P::Real>,
    bs: Seq<Laid<bool>>,
    count: int,
)
    requires
        s0.wf(),
        cov.wf(s0.params.h as int, s0.params.w as int),
        s1 == (Sim { paint_blocked: s1.paint_blocked, blocked: s1.blocked, ..s0 }),
        closed(p, s0, s1, pen, cov, bs, count),
    ensures
        s1.wf(),
{
    let (one, shuts) = choose|one: P::Real, shuts: bool| #[trigger]
        call_ensures(P::exceeds, (&p, one, pen), shuts) && call_ensures(P::one, (&p,), one) && if shuts {
            exists|newly: Laid<bool>| #[trigger] closed_by(p, s0, s1, pen, cov, bs, count, newly)
        } else {
            bs.len() == 0 && count == 0 && s1.paint_blocked@ == s0.paint_blocked@ && s1.blocked@ == s0.blocked@
        };
    if shuts {
        let newly = choose|newly: Laid<bool>| #[trigger] closed_by(p, s0, s1, pen, cov, bs, count, newly);
        let w = s0.params.w as int;
        assert forall|c: int| 0 <= c < s1.cells() implies #[trigger] s1.blocked@[c] == (s1.line_blocked@[c]
            || s1.paint_blocked@[c]) by {
            assert(s0.blocked@[c] == (s0.line_blocked@[c] || s0.paint_blocked@[c]));
            if newly.covers(w, c) {
                let (i, j) = choose|i: int, j: int| #[trigger] newly.has(i, j) && newly.under(w, i, j) == c;
                assert(or_step()(s0.paint_blocked@[c], newly.at(i, j), s1.paint_blocked@[c]));
                assert(or_step()(s0.blocked@[c], newly.at(i, j), s1.blocked@[c]));
            } else {
                assert(s1.paint_blocked@[c] == s0.paint_blocked@[c]);
            }
        }
    }
    lemma_same_board(s0, s1);
}

/// Closing cells speaks of the closed cells alone.
proof fn lemma_closed_frame<P: Physics>(
    p: P,
    s0: Sim<P::Real>,
    s1: Sim<P::Real>,
    t0: Sim<P::Real>,
    t1: Sim<P::Real>,
    pen: P::Real,
    cov: Laid<P::Real>,
    bs: Seq<Laid<bool>>,
    count: int,
)
    requires
        closed(p, s0, s1, pen, cov, bs, count),
        t0.params.w == s0.params.w,
        t0.blocked == s0.blocked,
        t0.paint_blocked == s0.paint_blocked,
        t1.blocked == s1.blocked,
        t1.paint_blocked == s1.paint_blocked,
    ensures
        closed(p, t0, t1, pen, cov, bs, count),
{
    let (one, shuts) = choose|one: P::Real, shuts: bool| #[trigger]
        call_ensures(P::exceeds, (&p, one, pen), shuts) && call_ensures(P::one, (&p,), one) && if shuts {
            exists|newly: Laid<bool>| #[trigger] closed_by(p, s0, s1, pen, cov, bs, count, newly)
        } else {
            bs.len() == 0 && count == 0 && s1.paint_blocked@ == s0.paint_blocked@ && s1.blocked@ == s0.blocked@
        };
    if shuts {
        let newly = choose|newly: Laid<bool>| #[trigger] closed_by(p, s0, s1, pen, cov, bs, count, newly);
        assert(closed_by(p, t0, t1, pen, cov, bs, count, newly));
    }
    assert(call_ensures(P::exceeds, (&p, one, pen), shuts));
}

/// Lattice line `a` is one of the `len` lines from `at` on: between walls by its
/// number, on a torus around the ring of `n`.
pub open spec fn in_run(a: int, at: int, len: int, n: int, periodic: bool) -> bool {
    if periodic {
        exists|i: int| 0 <= i < len && #[trigger] line_at(at, i, n) == a
    } else {
        at <= a < at + len
    }
}

pub open spec fn line_at(at: int, i: int, n: int) -> int {
    (at + i) % n
}

/// What a placed patch covers is within its box.
proof fn lemma_covered_in_box<T>(
    src: Seq<T>,
    y0: int,
    x0: int,
    ph: int,
    pw: int,
    h: int,
    w: int,
    periodic: bool,
    laid: Laid<T>,
    y: int,
    x: int,
)
    requires
        placed(src, y0, x0, ph, pw, h, w, periodic, laid),
        0 <= x < w,
        laid.covers(w, flat(w, y, x)),
    ensures
        in_run(y, y0, ph, h, periodic),
        in_run(x, x0, pw, w, periodic),
{
    let (i, j) = choose|i: int, j: int| #[trigger] laid.has(i, j) && laid.under(w, i, j) == flat(w, y, x);
    let (sy, sx) = (crate::patch::starts(y0, periodic), crate::patch::starts(x0, periodic));
    assert(laid.cols@[j] == (x0 + sx + j) % w);
    assert(laid.rows@[i] == (y0 + sy + i) % h);
    crate::lattice::lemma_flat_injective(w, laid.rows@[i] as int, laid.cols@[j] as int, y, x);
    if periodic {
        assert(line_at(y0, sy + i, h) == y);
        assert(line_at(x0, sx + j, w) == x);
    } else {
        vstd::arithmetic::div_mod::lemma_small_mod((y0 + sy + i) as nat, h as nat);
        vstd::arithmetic::div_mod::lemma_small_mod((x0 + sx + j) as nat, w as nat);
    }
}

/// A stroke stays in its box: painted charge and closed cells change within the
/// patch alone, and a local change of the fixed potential stays within the
/// patch grown by the reach `rp` of the coupling.
pub proof fn law_stroke_stays_in_its_box<P: Physics>(
    p: P,
    s0: Sim<P::Real>,
    s1: Sim<P::Real>,
    patch: StrokePatch<P::Real>,
    brush: Brush<P::Real>,
    first: bool,
    report: PaintReport<P::Real>,
    q: Laid<P::Real>,
    c: Laid<P::Real>,
    u: Laid<P::Real>,
    bs: Seq<Laid<bool>>,
    y: int,
    x: int,
)
    requires
        s0.wf(),
        laid_down_by(p, s0, s1, patch, brush, first, report, q, c, u, bs),
        0 <= y < s0.params.h,
        0 <= x < s0.params.w,
    ensures
        ({
            let (h, w, periodic) = (s0.params.h as int, s0.params.w as int, s0.params.periodic);
            let (y0, x0, ph, pw) = (patch.y0 as int, patch.x0 as int, patch.ph as int, patch.pw as int);
            let i = flat(w, y, x);
            let inside = in_run(y, y0, ph, h, periodic) && in_run(x, x0, pw, w, periodic);
            &&& s1.paint@[i] != s0.paint@[i] ==> inside
            &&& s1.paint_blocked@[i] != s0.paint_blocked@[i] ==> inside
            &&& s1.blocked@[i] != s0.blocked@[i] ==> inside
            &&& exists|rp: usize| #[trigger]
                reach_is(p, brush.coupling, rp) && (hits_wide(s0, patch, rp as int) && s1.u_edge@[i]
                    != s0.u_edge@[i] ==> in_run(y, y0 - rp, ph + 2 * rp, h, periodic) && in_run(
                    x,
                    x0 - rp,
                    pw + 2 * rp,
                    w,
                    periodic,
                ))
        }),
{
    let (h, w, periodic) = (s0.params.h as int, s0.params.w as int, s0.params.periodic);
    let (y0, x0, ph, pw) = (patch.y0 as int, patch.x0 as int, patch.ph as int, patch.pw as int);
    let i = flat(w, y, x);
    lemma_flat_bound(h, w, y, x);
    if q.covers(w, i) {
        lemma_covered_in_box(patch.dq@, y0, x0, ph, pw, h, w, periodic, q, y, x);
    }
    if c.covers(w, i) {
        lemma_covered_in_box(patch.cov@, y0, x0, ph, pw, h, w, periodic, c, y, x);
    }
    let pen = brush.penetrability;
    let count = report.blocked_new as int;
    let (one, shuts) = choose|one: P::Real, shuts: bool| #[trigger]
        call_ensures(P::exceeds, (&p, one, pen), shuts) && call_ensures(P::one, (&p,), one) && if shuts {
            exists|newly: Laid<bool>| #[trigger] closed_by(p, s0, s1, pen, c, bs, count, newly)
        } else {
            bs.len() == 0 && count == 0 && s1.paint_blocked@ == s0.paint_blocked@ && s1.blocked@ == s0.blocked@
        };
    if shuts {
        let newly = choose|newly: Laid<bool>| #[trigger] closed_by(p, s0, s1, pen, c, bs, count, newly);
        if newly.covers(w, i) {
            let (k, l) = choose|k: int, l: int| #[trigger] newly.has(k, l) && newly.under(w, k, l) == i;
            assert(c.has(k, l) && c.under(w, k, l) == i);
        }
    }
    let (rp, table, du) = choose|rp: usize, table: Seq<P::Real>, du: Seq<P::Real>| #[trigger]
        repotentialed_by(p, s0, s1, patch, brush, u, report.de_field, rp, table, du);
    assert(reach_is(p, brush.coupling, rp));
    if hits_wide(s0, patch, rp as int) {
        if u.covers(w, i) {
            lemma_covered_in_box(du, y0 - rp, x0 - rp, ph + 2 * rp, pw + 2 * rp, h, w, periodic, u, y, x);
        } else {
            assert(s1.u_edge@[i] == s0.u_edge@[i]);
        }
    }
}

/// The change of the potential is local wherever it can be: between walls, and
/// on a torus that holds the patch grown by the reach `rp` of the coupling.
pub proof fn law_change_is_local<R>(sim: Sim<R>, patch: StrokePatch<R>, rp: int)
    requires
        rp >= 0,
        hits(sim, patch),
        sim.params.periodic ==> patch.ph + 2 * rp <= sim.params.h && patch.pw + 2 * rp <= sim.params.w,
    ensures
        hits_wide(sim, patch, rp),
{
}

} // verus!

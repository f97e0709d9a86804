//! What a stroke does to the lattice, cell by cell and in real numbers.

use crate::convolve::{field_fits, spread};
use crate::exact::{exact, has_room, law_full_convolution_is_the_direct_sum, lemma_summed_exact, reads};
use crate::field::{
    cell_distances, cutoff_fits, lemma_charges_cast_their_repulsion, lemma_longer_than_its_steps, lemma_squares_as_reals,
};
use crate::kernel::{by_casting, by_potential, lemma_ring_bound, radial, ring, side, table_fits};
use crate::lattice::{count_lit, flat, lemma_flat_bound, lemma_flat_injective, lemma_flat_inverse};
use crate::metropolis::{lemma_turned_alike, lemma_turned_onto};
use crate::numbers::{cast_at, computes, is_distance, lemma_casting, lemma_reach, potential_at, whole, Numbers};
use crate::paint::{
    cast_afresh, cast_from, closed_by, covered_by, hits, hits_wide, laid_down, laid_down_by, opened, or_step,
    repotentialed_by, Record,
};
use crate::patch::{lemma_placed_wf, lemma_under_distinct, placed, starts, Laid};
use crate::physics::{plus_step, Brush, PaintReport, Params, Physics};
use crate::sim::Sim;
use crate::stroke::StrokePatch;
use crate::tally::{lemma_tally_places, lemma_tally_same, tally};
use crate::terms::reach_is;
use crate::undo::cleared;
use vstd::prelude::*;

verus! {

/// Line `v` of the plane lies on line `a` of the lattice: it is the same between
/// walls, and whole turns away on a torus of `n` lines.
pub open spec fn lies_on(v: int, a: int, n: int, periodic: bool) -> bool {
    if periodic {
        (a - v) % n == 0
    } else {
        a == v
    }
}

/// Cell `(i, j)` of a patch lies on cell `(y, x)` of the lattice.
pub open spec fn lies_on_cell<R>(params: Params<R>, patch: StrokePatch<R>, i: int, j: int, y: int, x: int) -> bool {
    &&& 0 <= i < patch.ph
    &&& 0 <= j < patch.pw
    &&& lies_on(patch.y0 + i, y, params.h as int, params.periodic)
    &&& lies_on(patch.x0 + j, x, params.w as int, params.periodic)
}

/// A cell that lies on the lattice is placed there.
proof fn lemma_placed_there<T>(
    src: Seq<T>,
    y0: int,
    x0: int,
    ph: int,
    pw: int,
    h: int,
    w: int,
    periodic: bool,
    laid: Laid<T>,
    i: int,
    j: int,
    y: int,
    x: int,
) -> (k: (int, int))
    requires
        placed(src, y0, x0, ph, pw, h, w, periodic, laid),
        0 <= i < ph,
        0 <= j < pw,
        0 <= y < h,
        0 <= x < w,
        lies_on(y0 + i, y, h, periodic),
        lies_on(x0 + j, x, w, periodic),
    ensures
        laid.has(k.0, k.1),
        laid.under(w, k.0, k.1) == flat(w, y, x),
        laid.at(k.0, k.1) == src[flat(pw, i, j)],
        k == (i - starts(y0, periodic), j - starts(x0, periodic)),
{
    let k = (i - starts(y0, periodic), j - starts(x0, periodic));
    assert(laid.has(k.0, k.1));
    assert(laid.rows@[k.0] == (y0 + i) % h);
    assert(laid.cols@[k.1] == (x0 + j) % w);
    if periodic {
        lemma_turned_alike(y, y0 + i, h);
        lemma_turned_alike(x, x0 + j, w);
    } else {
        vstd::arithmetic::div_mod::lemma_small_mod(y as nat, h as nat);
        vstd::arithmetic::div_mod::lemma_small_mod(x as nat, w as nat);
    }
    k
}

/// What is placed lies on the lattice.
proof fn lemma_lies_there<T>(
    src: Seq<T>,
    y0: int,
    x0: int,
    ph: int,
    pw: int,
    h: int,
    w: int,
    periodic: bool,
    laid: Laid<T>,
    k: int,
    l: int,
)
    requires
        placed(src, y0, x0, ph, pw, h, w, periodic, laid),
        h > 0,
        w > 0,
        laid.has(k, l),
    ensures
        ({
            let (i, j) = (starts(y0, periodic) + k, starts(x0, periodic) + l);
            &&& 0 <= i < ph
            &&& 0 <= j < pw
            &&& 0 <= laid.rows@[k] < h
            &&& 0 <= laid.cols@[l] < w
            &&& lies_on(y0 + i, laid.rows@[k] as int, h, periodic)
            &&& lies_on(x0 + j, laid.cols@[l] as int, w, periodic)
            &&& laid.at(k, l) == src[flat(pw, i, j)]
        }),
{
    let (i, j) = (starts(y0, periodic) + k, starts(x0, periodic) + l);
    assert(laid.rows@[k] == (y0 + starts(y0, periodic) + k) % h);
    assert(laid.cols@[l] == (x0 + starts(x0, periodic) + l) % w);
    if periodic {
        lemma_turned_onto(y0 + i, h);
        lemma_turned_onto(x0 + j, w);
    } else {
        vstd::arithmetic::div_mod::lemma_small_mod((y0 + i) as nat, h as nat);
        vstd::arithmetic::div_mod::lemma_small_mod((x0 + j) as nat, w as nat);
    }
}

/// A stroke lies where it was painted. A cell of the lattice takes up the charge of
/// the cell of the patch that lies on it. It is closed from then on if the brush is
/// not one that lets everything through, and the stroke covers it by more than the
/// brush lets through.
pub proof fn law_strokes_lie_where_they_are_painted<P: Physics>(
    p: P,
    n: Numbers<P::Real>,
    s0: Sim<P::Real>,
    s1: Sim<P::Real>,
    patch: StrokePatch<P::Real>,
    brush: Brush<P::Real>,
    first: bool,
    report: PaintReport<P::Real>,
    i: int,
    j: int,
    y: int,
    x: int,
)
    requires
        computes(p, n),
        s0.wf(),
        laid_down(p, s0, s1, patch, brush, first, report),
        hits(s0, patch),
        0 <= y < s0.params.h,
        0 <= x < s0.params.w,
        lies_on_cell(s0.params, patch, i, j, y, x),
    ensures
        ({
            let (c, k) = (y * s0.params.w + x, i * patch.pw + j);
            let pen = (n.val)(brush.penetrability);
            let shut = pen < 1 as real && (n.val)(patch.cov@[k]) > pen;
            &&& (n.val)(s1.paint@[c]) == (n.val)(s0.paint@[c]) + (n.val)(patch.dq@[k])
            &&& s1.blocked@[c] == (s0.blocked@[c] || shut)
            &&& s1.paint_blocked@[c] == (s0.paint_blocked@[c] || shut && !s0.blocked@[c])
        }),
{
    let (h, w, periodic) = (s0.params.h as int, s0.params.w as int, s0.params.periodic);
    let (y0, x0, ph, pw) = (patch.y0 as int, patch.x0 as int, patch.ph as int, patch.pw as int);
    let c0 = flat(w, y, x);
    let (q, c, u, bs) = choose|q: Laid<P::Real>, c: Laid<P::Real>, u: Laid<P::Real>, bs: Seq<Laid<bool>>| #[trigger]
        laid_down_by(p, s0, s1, patch, brush, first, report, q, c, u, bs);
    let k = lemma_placed_there(patch.dq@, y0, x0, ph, pw, h, w, periodic, q, i, j, y, x);
    assert(plus_step(p)(s0.paint@[c0], q.at(k.0, k.1), s1.paint@[c0]));
    assert(call_ensures(P::plus, (&p, s0.paint@[c0], q.at(k.0, k.1)), s1.paint@[c0]));
    let k = lemma_placed_there(patch.cov@, y0, x0, ph, pw, h, w, periodic, c, i, j, y, x);
    let pen = brush.penetrability;
    let count = report.blocked_new as int;
    let (one, shuts) = choose|one: P::Real, shuts: bool| #[trigger]
        call_ensures(P::exceeds, (&p, one, pen), shuts) && call_ensures(P::one, (&p,), one) && if shuts {
            exists|newly: Laid<bool>| #[trigger] closed_by(p, s0, s1, pen, c, bs, count, newly)
        } else {
            bs.len() == 0 && count == 0 && s1.paint_blocked@ == s0.paint_blocked@ && s1.blocked@ == s0.blocked@
        };
    if shuts {
        let newly = choose|newly: Laid<bool>| #[trigger] closed_by(p, s0, s1, pen, c, bs, count, newly);
        assert(newly.has(k.0, k.1));
        assert(newly.under(w, k.0, k.1) == c0);
        let over = choose|over: bool| #[trigger]
            call_ensures(P::exceeds, (&p, c.at(k.0, k.1), pen), over) && newly.at(k.0, k.1) == (over && !s0.blocked@[c.under(
                w,
                k.0,
                k.1,
            )]);
        assert(or_step()(s0.paint_blocked@[c0], newly.at(k.0, k.1), s1.paint_blocked@[c0]));
        assert(or_step()(s0.blocked@[c0], newly.at(k.0, k.1), s1.blocked@[c0]));
    }
}

/// A stroke leaves the paint alone on cells on which no cell of its patch lies, and
/// closes none of them.
pub proof fn law_strokes_lie_nowhere_else<P: Physics>(
    p: P,
    s0: Sim<P::Real>,
    s1: Sim<P::Real>,
    patch: StrokePatch<P::Real>,
    brush: Brush<P::Real>,
    first: bool,
    report: PaintReport<P::Real>,
    y: int,
    x: int,
)
    requires
        s0.wf(),
        laid_down(p, s0, s1, patch, brush, first, report),
        0 <= y < s0.params.h,
        0 <= x < s0.params.w,
        !hits(s0, patch) || forall|i: int, j: int| !#[trigger] lies_on_cell(s0.params, patch, i, j, y, x),
    ensures
        ({
            let c = y * s0.params.w + x;
            &&& s1.paint@[c] == s0.paint@[c]
            &&& s1.blocked@[c] == s0.blocked@[c]
            &&& s1.paint_blocked@[c] == s0.paint_blocked@[c]
        }),
{
    if hits(s0, patch) {
        let (h, w, periodic) = (s0.params.h as int, s0.params.w as int, s0.params.periodic);
        let (y0, x0, ph, pw) = (patch.y0 as int, patch.x0 as int, patch.ph as int, patch.pw as int);
        let c0 = flat(w, y, x);
        lemma_flat_bound(h, w, y, x);
        let (q, c, u, bs) = choose|q: Laid<P::Real>, c: Laid<P::Real>, u: Laid<P::Real>, bs: Seq<Laid<bool>>| #[trigger]
            laid_down_by(p, s0, s1, patch, brush, first, report, q, c, u, bs);
        if q.covers(w, c0) {
            let (k, l) = choose|k: int, l: int| #[trigger] q.has(k, l) && q.under(w, k, l) == c0;
            lemma_lies_there(patch.dq@, y0, x0, ph, pw, h, w, periodic, q, k, l);
            lemma_flat_injective(w, q.rows@[k] as int, q.cols@[l] as int, y, x);
            assert(lies_on_cell(s0.params, patch, starts(y0, periodic) + k, starts(x0, periodic) + l, y, x));
        }
        let pen = brush.penetrability;
        let count = report.blocked_new as int;
        let (one, shuts) = choose|one: P::Real, shuts: bool| #[trigger]
            call_ensures(P::exceeds, (&p, one, pen), shuts) && call_ensures(P::one, (&p,), one) && if shuts {
                exists|newly: Laid<bool>| #[trigger] closed_by(p, s0, s1, pen, c, bs, count, newly)
            } else {
                bs.len() == 0 && count == 0 && s1.paint_blocked@ == s0.paint_blocked@ && s1.blocked@ == s0.blocked@
            };
        if shuts {
            let newly = choose|newly: Laid<bool>| #[trigger] closed_by(p, s0, s1, pen, c, bs, count, newly);
            if newly.covers(w, c0) {
                let (k, l) = choose|k: int, l: int| #[trigger] newly.has(k, l) && newly.under(w, k, l) == c0;
                assert(c.has(k, l) && c.under(w, k, l) == c0);
                lemma_lies_there(patch.cov@, y0, x0, ph, pw, h, w, periodic, c, k, l);
                lemma_flat_injective(w, c.rows@[k] as int, c.cols@[l] as int, y, x);
                assert(lies_on_cell(s0.params, patch, starts(y0, periodic) + k, starts(x0, periodic) + l, y, x));
            }
            assert(s1.blocked@.len() == s0.blocked@.len());
        }
    }
}

/// The last strokes can be undone, as many as thirty-two: a stroke that starts, or
/// the first of all, is recorded anew behind those before it, of which the oldest is
/// forgotten where there are too many. One that goes on belongs to the last.
pub proof fn law_thirty_two_strokes_are_remembered<R>(before: Seq<Record<R>>, first: bool)
    requires
        before.len() <= 32,
    ensures
        ({
            let after = opened(before, first);
            &&& after.len() <= 32
            &&& !first && before.len() > 0 ==> after == before
            &&& first || before.len() == 0 ==> {
                let forgotten: int = if before.len() == 32 {
                    1
                } else {
                    0
                };
                &&& after.len() == before.len() + 1 - forgotten
                &&& after.last().u.len() == 0 && after.last().q.len() == 0 && after.last().b.len() == 0
                &&& forall|i: int| 0 <= i < after.len() - 1 ==> #[trigger] after[i] == before[i + forgotten]
            }
        }),
{
}

pub proof fn lemma_lit_as_tally(cells: Seq<bool>)
    ensures
        whole(count_lit(cells) as int) == tally(
            cells.len() as int,
            |k: int|
                if cells[k] {
                    1 as real
                } else {
                    0 as real
                },
        ),
    decreases cells.len(),
{
    if cells.len() > 0 {
        let less = cells.drop_last();
        lemma_lit_as_tally(less);
        lemma_tally_same(
            less.len() as int,
            |k: int|
                if less[k] {
                    1 as real
                } else {
                    0 as real
                },
            |k: int|
                if cells[k] {
                    1 as real
                } else {
                    0 as real
                },
        );
    }
}

/// A sum over what is laid on the lattice is a sum over the lattice.
proof fn lemma_laid_sum<T>(laid: Laid<T>, h: int, w: int, of: spec_fn(int) -> real, on: spec_fn(int) -> real)
    requires
        laid.wf(h, w),
        forall|k: int, l: int|
            laid.has(k, l) ==> of(#[trigger] flat(laid.cols@.len() as int, k, l)) == on(laid.under(w, k, l)),
        forall|c: int| #![trigger on(c)] 0 <= c < h * w && !laid.covers(w, c) ==> on(c) == 0 as real,
    ensures
        tally(laid.cells@.len() as int, of) == tally(h * w, on),
{
    let (rows, cols) = (laid.rows@.len() as int, laid.cols@.len() as int);
    let n = laid.cells@.len() as int;
    let good = |l: int| true;
    let e = |l: int| laid.under(w, l / cols, l % cols);
    assert forall|l: int| 0 <= l < n && good(l) implies 0 <= #[trigger] e(l) < h * w by {
        lemma_flat_inverse(rows, cols, l);
        lemma_flat_bound(h, w, laid.rows@[l / cols] as int, laid.cols@[l % cols] as int);
    }
    assert forall|l: int, m: int| 0 <= l < m < n && good(l) && good(m) implies #[trigger] e(l) != #[trigger] e(m) by {
        lemma_flat_inverse(rows, cols, l);
        lemma_flat_inverse(rows, cols, m);
        if e(l) == e(m) {
            lemma_under_distinct(laid, h, w, l / cols, l % cols, m / cols, m % cols);
        }
    }
    assert forall|l: int| #![trigger of(l)] 0 <= l < n implies of(l) == (if good(l) {
        on(e(l))
    } else {
        0 as real
    }) by {
        lemma_flat_inverse(rows, cols, l);
        assert(laid.has(l / cols, l % cols));
        assert(of(flat(cols, l / cols, l % cols)) == on(laid.under(w, l / cols, l % cols)));
    }
    assert forall|k: int| #![trigger on(k)] 0 <= k < h * w implies on(k) == (if crate::tally::hits(n, good, e, k) {
        on(k)
    } else {
        0 as real
    }) by {
        if laid.covers(w, k) {
            let (a, b) = choose|a: int, b: int| #[trigger] laid.has(a, b) && laid.under(w, a, b) == k;
            lemma_flat_bound(rows, cols, a, b);
            crate::lattice::lemma_flat_parts(cols, a, b);
            let l = flat(cols, a, b);
            assert(e(l) == k);
        }
    }
    lemma_tally_places(n, h * w, good, e, on, of, on);
}

/// A report adds up: its charge is what the paint of all cells changed by, it counts
/// the cells that are closed now and were not, and what it says of the energy is what
/// that changed by.
pub proof fn law_reports_add_up<P: Physics>(
    p: P,
    n: Numbers<P::Real>,
    s0: Sim<P::Real>,
    s1: Sim<P::Real>,
    patch: StrokePatch<P::Real>,
    brush: Brush<P::Real>,
    first: bool,
    report: PaintReport<P::Real>,
)
    requires
        computes(p, n),
        s0.wf(),
        s1.wf(),
        laid_down(p, s0, s1, patch, brush, first, report),
    ensures
        ({
            let cells = s0.params.h * s0.params.w;
            &&& (n.val)(report.charge) == tally(cells, |c: int| (n.val)(s1.paint@[c]) - (n.val)(s0.paint@[c]))
            &&& whole(report.blocked_new as int) == tally(
                cells,
                |c: int|
                    if s1.blocked@[c] && !s0.blocked@[c] {
                        1 as real
                    } else {
                        0 as real
                    },
            )
            &&& (n.val)(report.de_field) == (n.val)(s1.energy) - (n.val)(s0.energy)
        }),
{
    let (h, w, periodic) = (s0.params.h as int, s0.params.w as int, s0.params.periodic);
    let (y0, x0, ph, pw) = (patch.y0 as int, patch.x0 as int, patch.ph as int, patch.pw as int);
    let more = |c: int| (n.val)(s1.paint@[c]) - (n.val)(s0.paint@[c]);
    let shut = |c: int|
        if s1.blocked@[c] && !s0.blocked@[c] {
            1 as real
        } else {
            0 as real
        };
    if hits(s0, patch) {
        let (q, c, u, bs) = choose|q: Laid<P::Real>, c: Laid<P::Real>, u: Laid<P::Real>, bs: Seq<Laid<bool>>| #[trigger]
            laid_down_by(p, s0, s1, patch, brush, first, report, q, c, u, bs);
        lemma_placed_wf(patch.dq@, y0, x0, ph, pw, h, w, periodic, q);
        lemma_placed_wf(patch.cov@, y0, x0, ph, pw, h, w, periodic, c);
        lemma_summed_exact(p, n.val, q.cells@, report.charge);
        let of = |l: int| (n.val)(q.cells@[l]);
        assert forall|k: int, l: int| q.has(k, l) implies of(#[trigger] flat(q.cols@.len() as int, k, l)) == more(
            q.under(w, k, l),
        ) by {
            let c0 = q.under(w, k, l);
            assert(plus_step(p)(s0.paint@[c0], q.at(k, l), s1.paint@[c0]));
            assert(call_ensures(P::plus, (&p, s0.paint@[c0], q.at(k, l)), s1.paint@[c0]));
        }
        lemma_laid_sum(q, h, w, of, more);
        let pen = brush.penetrability;
        let count = report.blocked_new as int;
        let (one, shuts) = choose|one: P::Real, shuts: bool| #[trigger]
            call_ensures(P::exceeds, (&p, one, pen), shuts) && call_ensures(P::one, (&p,), one) && if shuts {
                exists|newly: Laid<bool>| #[trigger] closed_by(p, s0, s1, pen, c, bs, count, newly)
            } else {
                bs.len() == 0 && count == 0 && s1.paint_blocked@ == s0.paint_blocked@ && s1.blocked@ == s0.blocked@
            };
        if shuts {
            let newly = choose|newly: Laid<bool>| #[trigger] closed_by(p, s0, s1, pen, c, bs, count, newly);
            let lit = |l: int|
                if newly.cells@[l] {
                    1 as real
                } else {
                    0 as real
                };
            assert(newly.wf(h, w));
            lemma_lit_as_tally(newly.cells@);
            assert forall|k: int, l: int| newly.has(k, l) implies lit(#[trigger] flat(newly.cols@.len() as int, k, l)) == shut(
                newly.under(w, k, l),
            ) by {
                let c0 = newly.under(w, k, l);
                assert(or_step()(s0.blocked@[c0], newly.at(k, l), s1.blocked@[c0]));
                let over = choose|over: bool| #[trigger]
                    call_ensures(P::exceeds, (&p, c.at(k, l), pen), over) && newly.at(k, l) == (over && !s0.blocked@[c.under(
                        w,
                        k,
                        l,
                    )]);
            }
            assert(s0.blocked@.len() == h * w);
            lemma_laid_sum(newly, h, w, lit, shut);
        } else {
            crate::tally::lemma_tally_zero(h * w, shut);
        }
        let (rp, table, du) = choose|rp: usize, table: Seq<P::Real>, du: Seq<P::Real>| #[trigger]
            repotentialed_by(p, s0, s1, patch, brush, u, report.de_field, rp, table, du);
    } else {
        crate::tally::lemma_tally_zero(h * w, more);
        crate::tally::lemma_tally_zero(h * w, shut);
    }
}

/// The stroke covers the cell `(y, x)` of the lattice at all.
pub open spec fn inked<R>(n: Numbers<R>, params: Params<R>, patch: StrokePatch<R>, y: int, x: int) -> bool {
    exists|i: int, j: int| #[trigger] lies_on_cell(params, patch, i, j, y, x) && (n.val)(patch.cov@[i * patch.pw + j]) > 0 as real
}

/// A report counts the cells of the lattice that the stroke covers at all.
pub proof fn law_reports_count_covered_cells<P: Physics>(
    p: P,
    n: Numbers<P::Real>,
    s0: Sim<P::Real>,
    s1: Sim<P::Real>,
    patch: StrokePatch<P::Real>,
    brush: Brush<P::Real>,
    first: bool,
    report: PaintReport<P::Real>,
)
    requires
        computes(p, n),
        s0.wf(),
        laid_down(p, s0, s1, patch, brush, first, report),
        hits(s0, patch),
    ensures
        whole(report.painted_cells as int) == tally(
            s0.params.h * s0.params.w,
            |c: int|
                if inked(n, s0.params, patch, c / s0.params.w as int, c % s0.params.w as int) {
                    1 as real
                } else {
                    0 as real
                },
        ),
{
    let (h, w, periodic) = (s0.params.h as int, s0.params.w as int, s0.params.periodic);
    let (y0, x0, ph, pw) = (patch.y0 as int, patch.x0 as int, patch.ph as int, patch.pw as int);
    let (q, c, u, bs) = choose|q: Laid<P::Real>, c: Laid<P::Real>, u: Laid<P::Real>, bs: Seq<Laid<bool>>| #[trigger]
        laid_down_by(p, s0, s1, patch, brush, first, report, q, c, u, bs);
    lemma_placed_wf(patch.cov@, y0, x0, ph, pw, h, w, periodic, c);
    let (z, flags) = choose|z: P::Real, flags: Seq<bool>| #[trigger]
        covered_by(p, c.cells@, report.painted_cells as int, z, flags);
    lemma_lit_as_tally(flags);
    let of = |l: int|
        if flags[l] {
            1 as real
        } else {
            0 as real
        };
    let on = |a: int|
        if inked(n, s0.params, patch, a / s0.params.w as int, a % s0.params.w as int) {
            1 as real
        } else {
            0 as real
        };
    let (rows, cols) = (c.rows@.len() as int, c.cols@.len() as int);
    let (sy, sx) = (starts(y0, periodic), starts(x0, periodic));
    assert forall|k: int, l: int| c.has(k, l) implies of(#[trigger] flat(cols, k, l)) == on(c.under(w, k, l)) by {
        let a = c.under(w, k, l);
        let (y, x) = (c.rows@[k] as int, c.cols@[l] as int);
        if h > 0 && w > 0 {
            lemma_lies_there(patch.cov@, y0, x0, ph, pw, h, w, periodic, c, k, l);
        }
        lemma_flat_bound(rows, cols, k, l);
        crate::lattice::lemma_flat_parts(w, y, x);
        assert(a / w == y && a % w == x);
        let f = flat(cols, k, l);
        assert(call_ensures(P::exceeds, (&p, c.cells@[f], z), flags[f]));
        if flags[f] {
            assert(lies_on_cell(s0.params, patch, sy + k, sx + l, y, x));
            assert(inked(n, s0.params, patch, y, x));
        }
        if inked(n, s0.params, patch, y, x) {
            let (i, j) = choose|i: int, j: int| #[trigger]
                lies_on_cell(s0.params, patch, i, j, y, x) && (n.val)(patch.cov@[i * patch.pw + j]) > 0 as real;
            let at = lemma_placed_there(patch.cov@, y0, x0, ph, pw, h, w, periodic, c, i, j, y, x);
            lemma_under_distinct(c, h, w, k, l, at.0, at.1);
        }
    }
    assert forall|a: int| #![trigger on(a)] 0 <= a < h * w && !c.covers(w, a) implies on(a) == 0 as real by {
        lemma_flat_inverse(h, w, a);
        let (y, x) = (a / w, a % w);
        if inked(n, s0.params, patch, y, x) {
            let (i, j) = choose|i: int, j: int| #[trigger]
                lies_on_cell(s0.params, patch, i, j, y, x) && (n.val)(patch.cov@[i * patch.pw + j]) > 0 as real;
            let at = lemma_placed_there(patch.cov@, y0, x0, ph, pw, h, w, periodic, c, i, j, y, x);
            assert(c.has(at.0, at.1) && c.under(w, at.0, at.1) == a);
        }
    }
    lemma_laid_sum(c, h, w, of, on);
}

/// A table holds what painted charge casts at each step from its centre, and
/// nothing is left outside it.
pub proof fn lemma_cast_entry<P: Physics>(
    p: P,
    n: Numbers<P::Real>,
    strength: P::Real,
    screening: P::Real,
    coupling: P::Real,
    hardness: P::Real,
    rp: usize,
    table: Seq<P::Real>,
    y: int,
    x: int,
    d: real,
)
    requires
        computes(p, n),
        cutoff_fits(n, coupling),
        reach_is(p, coupling, rp),
        table_fits(rp as int),
        radial(table, rp as int, by_casting(p, strength, screening, coupling, hardness)),
        is_distance(d, whole(y), whole(x)),
    ensures
        reads(n.val, table, side(rp as int), side(rp as int), y + rp, x + rp) == cast_at(
            n,
            d,
            (n.val)(strength),
            (n.val)(screening),
            (n.val)(coupling),
            (n.val)(hardness),
        ),
{
    lemma_reach(p, n, coupling, rp);
    if -rp <= y <= rp && -rp <= x <= rp {
        let (i, j) = (y + rp, x + rp);
        let c = rp as int;
        lemma_ring_bound(c, i, j);
        let r2 = ring(c, i, j);
        assert(i - c == y && j - c == x);
        lemma_squares_as_reals(y, x);
        let v = table[flat(side(c), i, j)];
        assert(by_casting(p, strength, screening, coupling, hardness)(r2, v));
        lemma_casting(p, n, r2 as i64, strength, screening, coupling, hardness, v, d);
    } else {
        lemma_longer_than_its_steps(d, y, x, rp as int);
    }
}

/// The distances of the point `(v, u)` of the plane from all cells of a patch.
pub open spec fn patch_distances<R>(patch: StrokePatch<R>, v: int, u: int, dist: spec_fn(int) -> real) -> bool {
    forall|c: int|
        0 <= c < patch.ph * patch.pw ==> is_distance(
            #[trigger] dist(c),
            whole(v - (patch.y0 + c / patch.pw as int)),
            whole(u - (patch.x0 + c % patch.pw as int)),
        )
}

/// What a patch casts, by the table, is the sum over its cells.
proof fn lemma_cast_sum<P: Physics>(
    p: P,
    n: Numbers<P::Real>,
    params: Params<P::Real>,
    patch: StrokePatch<P::Real>,
    brush: Brush<P::Real>,
    reach: usize,
    table: Seq<P::Real>,
    v: int,
    u: int,
    dist: spec_fn(int) -> real,
)
    requires
        computes(p, n),
        cutoff_fits(n, brush.coupling),
        reach_is(p, brush.coupling, reach),
        table_fits(reach as int),
        radial(table, reach as int, by_casting(p, params.strength, params.screening, brush.coupling, brush.hardness)),
        patch_distances(patch, v, u, dist),
    ensures
        tally(
            patch.ph * patch.pw,
            |k: int|
                (n.val)(patch.dq@[k]) * reads(
                    n.val,
                    table,
                    side(reach as int),
                    side(reach as int),
                    v - (patch.y0 - reach) - k / patch.pw as int,
                    u - (patch.x0 - reach) - k % patch.pw as int,
                ),
        ) == tally(
            patch.ph * patch.pw,
            |k: int|
                (n.val)(patch.dq@[k]) * cast_at(
                    n,
                    dist(k),
                    (n.val)(params.strength),
                    (n.val)(params.screening),
                    (n.val)(brush.coupling),
                    (n.val)(brush.hardness),
                ),
        ),
{
    let (y0, x0, pw, rp, s) = (patch.y0 as int, patch.x0 as int, patch.pw as int, reach as int, side(reach as int));
    let f = |k: int|
        (n.val)(patch.dq@[k]) * reads(
            n.val,
            table,
            side(reach as int),
            side(reach as int),
            v - (patch.y0 - reach) - k / patch.pw as int,
            u - (patch.x0 - reach) - k % patch.pw as int,
        );
    let g = |k: int|
        (n.val)(patch.dq@[k]) * cast_at(
            n,
            dist(k),
            (n.val)(params.strength),
            (n.val)(params.screening),
            (n.val)(brush.coupling),
            (n.val)(brush.hardness),
        );
    assert forall|k: int| #![trigger f(k)] 0 <= k < patch.ph * patch.pw implies f(k) == g(k) by {
        let (dy, dx) = (v - (y0 + k / pw), u - (x0 + k % pw));
        assert(is_distance(dist(k), whole(dy), whole(dx)));
        lemma_cast_entry(
            p,
            n,
            params.strength,
            params.screening,
            brush.coupling,
            brush.hardness,
            reach,
            table,
            dy,
            dx,
            dist(k),
        );
        assert(dy + rp == v - (y0 - rp) - k / pw && dx + rp == u - (x0 - rp) - k % pw);
    }
    lemma_tally_same(patch.ph * patch.pw, f, g);
}

/// A stroke casts the potential of its charge: on every cell of the lattice the fixed
/// potential changes by the sum, over the cells of the patch, of their charge by the
/// potential of the brush at their distance. So it is between walls; on a torus it is
/// where that has room for the whole potential, distances being taken in the plane.
#[verifier::rlimit(40)]
pub proof fn law_strokes_cast_their_potential<P: Physics>(
    p: P,
    n: Numbers<P::Real>,
    s0: Sim<P::Real>,
    s1: Sim<P::Real>,
    patch: StrokePatch<P::Real>,
    brush: Brush<P::Real>,
    first: bool,
    report: PaintReport<P::Real>,
    y: int,
    x: int,
    v: int,
    u: int,
    dist: spec_fn(int) -> real,
)
    requires
        computes(p, n),
        exact(p, n.val),
        s0.wf(),
        laid_down(p, s0, s1, patch, brush, first, report),
        hits(s0, patch),
        cutoff_fits(n, brush.coupling),
        0 <= y < s0.params.h,
        0 <= x < s0.params.w,
        lies_on(v, y, s0.params.h as int, s0.params.periodic),
        lies_on(u, x, s0.params.w as int, s0.params.periodic),
        s0.params.periodic ==> forall|rp: usize| #[trigger]
            reach_is(p, brush.coupling, rp) ==> {
                &&& patch.ph + 2 * rp <= s0.params.h
                &&& patch.pw + 2 * rp <= s0.params.w
                &&& patch.y0 - rp <= v < patch.y0 + patch.ph + rp
                &&& patch.x0 - rp <= u < patch.x0 + patch.pw + rp
            },
        patch_distances(patch, v, u, dist),
    ensures
        ({
            let c = y * s0.params.w + x;
            (n.val)(s1.u_edge@[c]) - (n.val)(s0.u_edge@[c]) == tally(
                patch.ph * patch.pw,
                |k: int|
                    (n.val)(patch.dq@[k]) * cast_at(
                        n,
                        dist(k),
                        (n.val)(s0.params.strength),
                        (n.val)(s0.params.screening),
                        (n.val)(brush.coupling),
                        (n.val)(brush.hardness),
                    ),
            )
        }),
{
    let (h, w, periodic) = (s0.params.h as int, s0.params.w as int, s0.params.periodic);
    let (y0, x0, ph, pw) = (patch.y0 as int, patch.x0 as int, patch.ph as int, patch.pw as int);
    let c0 = flat(w, y, x);
    lemma_flat_bound(h, w, y, x);
    let (q, c, ul, bs) = choose|q: Laid<P::Real>, c: Laid<P::Real>, u: Laid<P::Real>, bs: Seq<Laid<bool>>| #[trigger]
        laid_down_by(p, s0, s1, patch, brush, first, report, q, c, u, bs);
    let (reach, table, du) = choose|rp: usize, table: Seq<P::Real>, du: Seq<P::Real>| #[trigger]
        repotentialed_by(p, s0, s1, patch, brush, ul, report.de_field, rp, table, du);
    let rp = reach as int;
    let s = side(rp);
    assert(hits_wide(s0, patch, rp));
    let (ly, lx) = (y0 - rp, x0 - rp);
    let (lh, lw) = (ph + 2 * rp, pw + 2 * rp);
    let (i, j) = (v - ly, u - lx);
    let g = |k: int| (n.val)(patch.dq@[k]) * reads(n.val, table, s, s, i - k / pw, j - k % pw);
    lemma_cast_sum(p, n, s0.params, patch, brush, reach, table, v, u, dist);
    if 0 <= i < lh && 0 <= j < lw {
        let at = lemma_placed_there(du, ly, lx, lh, lw, h, w, periodic, ul, i, j, y, x);
        assert(plus_step(p)(s0.u_edge@[c0], ul.at(at.0, at.1), s1.u_edge@[c0]));
        assert(call_ensures(P::plus, (&p, s0.u_edge@[c0], ul.at(at.0, at.1)), s1.u_edge@[c0]));
        law_full_convolution_is_the_direct_sum(p, n.val, patch.dq@, ph, pw, table, s, s, du, i, j);
        lemma_tally_same(ph * pw, |c: int| (n.val)(patch.dq@[c]) * reads(n.val, table, s, s, i - c / pw, j - c % pw), g);
    } else {
        if ul.covers(w, c0) {
            let (k, l) = choose|k: int, l: int| #[trigger] ul.has(k, l) && ul.under(w, k, l) == c0;
            lemma_lies_there(du, ly, lx, lh, lw, h, w, periodic, ul, k, l);
            lemma_flat_injective(w, ul.rows@[k] as int, ul.cols@[l] as int, y, x);
        }
        assert(s1.u_edge@[c0] == s0.u_edge@[c0]);
        assert forall|k: int| #![trigger g(k)] 0 <= k < ph * pw implies g(k) == 0 as real by {
            lemma_flat_inverse(ph, pw, k);
            let a = (n.val)(patch.dq@[k]);
            assert(a * (0 as real) == 0 as real) by (nonlinear_arith);
        }
        crate::tally::lemma_tally_zero(ph * pw, g);
    }
}

/// Worked out afresh, the fixed potential is the repulsion of lines and paint: on
/// every cell it is the sum over all cells of their charge by the repulsion at their
/// distance.
pub proof fn law_potential_afresh_is_that_of_lines_and_paint<P: Physics>(
    p: P,
    n: Numbers<P::Real>,
    params: Params<P::Real>,
    cov: Seq<P::Real>,
    density: P::Real,
    paint: Seq<P::Real>,
    table: Seq<P::Real>,
    rc: usize,
    out: Seq<P::Real>,
    y: int,
    x: int,
    dist: spec_fn(int) -> real,
)
    requires
        computes(p, n),
        exact(p, n.val),
        cast_afresh(p, params, cov, density, paint, table, rc as int, out),
        cov.len() == params.h * params.w,
        cutoff_fits(n, params.cutoff),
        reach_is(p, params.cutoff, rc),
        table_fits(rc as int),
        radial(table, rc as int, by_potential(p, params, false)),
        field_fits(params.h as int, params.w as int, rc as int, params.periodic),
        has_room(params.h as int, params.w as int, rc as int, params.periodic),
        0 <= y < params.h,
        0 <= x < params.w,
        cell_distances(params, y, x, dist),
    ensures
        (n.val)(out[y * params.w + x]) == tally(
            params.h * params.w,
            |c: int|
                ((n.val)(cov[c]) * (n.val)(density) + (n.val)(paint[c])) * potential_at(n, dist(c), params, false),
        ),
{
    let (line, edge) = choose|line: Seq<P::Real>, edge: Seq<P::Real>| #[trigger]
        cast_from(p, cov, density, paint, line, edge) && spread(
            p,
            edge,
            params.h as int,
            params.w as int,
            table,
            rc as int,
            params.periodic,
            out,
        );
    lemma_charges_cast_their_repulsion(p, n, params, edge, table, rc, out, y, x, dist);
    let f = |c: int| (n.val)(edge[c]) * potential_at(n, dist(c), params, false);
    let g = |c: int| ((n.val)(cov[c]) * (n.val)(density) + (n.val)(paint[c])) * potential_at(n, dist(c), params, false);
    assert forall|c: int| #![trigger f(c)] 0 <= c < params.h * params.w implies f(c) == g(c) by {
        assert(call_ensures(P::times, (&p, cov[c], density), line[c]));
        assert(call_ensures(P::plus, (&p, line[c], paint[c]), edge[c]));
    }
    lemma_tally_same(params.h * params.w, f, g);
}

/// Wiped clean, the canvas holds no paint, lines alone close cells, no stroke can be
/// undone, and the fixed potential is the repulsion of the lines.
pub proof fn law_a_wiped_canvas_has_its_lines_alone<P: Physics>(
    p: P,
    n: Numbers<P::Real>,
    s0: Sim<P::Real>,
    s1: Sim<P::Real>,
    y: int,
    x: int,
    dist: spec_fn(int) -> real,
)
    requires
        computes(p, n),
        exact(p, n.val),
        s0.wf(),
        cleared(p, s0, s1),
        cutoff_fits(n, s0.params.cutoff),
        reach_is(p, s0.params.cutoff, s0.rc),
        radial(s0.kernel_edge@, s0.rc as int, by_potential(p, s0.params, false)),
        has_room(s0.params.h as int, s0.params.w as int, s0.rc as int, s0.params.periodic),
        0 <= y < s0.params.h,
        0 <= x < s0.params.w,
        cell_distances(s0.params, y, x, dist),
    ensures
        ({
            let c = y * s0.params.w + x;
            &&& (n.val)(s1.paint@[c]) == 0 as real
            &&& s1.blocked@[c] == s0.line_blocked@[c]
            &&& !s1.paint_blocked@[c]
            &&& s1.strokes@.len() == 0
            &&& (n.val)(s1.u_edge@[c]) == tally(
                s0.params.h * s0.params.w,
                |k: int| (n.val)(s0.cov@[k]) * (n.val)(s0.line_density) * potential_at(n, dist(k), s0.params, false),
            )
            &&& s1.pos == s0.pos && s1.occ == s0.occ
        }),
{
    let (h, w) = (s0.params.h as int, s0.params.w as int);
    lemma_flat_bound(h, w, y, x);
    law_potential_afresh_is_that_of_lines_and_paint(
        p,
        n,
        s0.params,
        s0.cov@,
        s0.line_density,
        s1.paint@,
        s0.kernel_edge@,
        s0.rc,
        s1.u_edge@,
        y,
        x,
        dist,
    );
    let f = |k: int|
        ((n.val)(s0.cov@[k]) * (n.val)(s0.line_density) + (n.val)(s1.paint@[k])) * potential_at(n, dist(k), s0.params, false);
    let g = |k: int| (n.val)(s0.cov@[k]) * (n.val)(s0.line_density) * potential_at(n, dist(k), s0.params, false);
    assert forall|k: int| #![trigger f(k)] 0 <= k < h * w implies f(k) == g(k) by {
        assert(call_ensures(P::zero, (&p,), s1.paint@[k]));
    }
    lemma_tally_same(h * w, f, g);
    assert(call_ensures(P::zero, (&p,), s1.paint@[flat(w, y, x)]));
}

/// A stroke is laid on the lattice wherever it can be: between walls if any of it
/// lies between them, and on a torus if that is not too small for it, so that no two
/// cells of the patch lie on one cell.
pub proof fn law_strokes_are_laid_where_there_is_room<R>(sim: Sim<R>, patch: StrokePatch<R>)
    requires
        sim.params.h > 0,
        sim.params.w > 0,
    ensures
        !sim.params.periodic ==> (hits(sim, patch) <==> exists|i: int, j: int|
            #[trigger] lies_on_cell(sim.params, patch, i, j, patch.y0 + i, patch.x0 + j) && 0 <= patch.y0 + i < sim.params.h && 0
                <= patch.x0 + j < sim.params.w),
        sim.params.periodic ==> (hits(sim, patch) <==> patch.ph <= sim.params.h && patch.pw <= sim.params.w),
{
    if !sim.params.periodic && hits(sim, patch) {
        let (i, j) = (starts(patch.y0 as int, false), starts(patch.x0 as int, false));
        assert(lies_on_cell(sim.params, patch, i, j, patch.y0 + i, patch.x0 + j));
    }
}

/// On a torus that is too small for what a stroke casts, the fixed potential is
/// worked out afresh, and is the repulsion of the lines and of all paint.
pub proof fn law_strokes_on_a_small_torus<P: Physics>(
    p: P,
    n: Numbers<P::Real>,
    s0: Sim<P::Real>,
    s1: Sim<P::Real>,
    patch: StrokePatch<P::Real>,
    brush: Brush<P::Real>,
    first: bool,
    report: PaintReport<P::Real>,
    y: int,
    x: int,
    dist: spec_fn(int) -> real,
)
    requires
        computes(p, n),
        exact(p, n.val),
        s0.wf(),
        laid_down(p, s0, s1, patch, brush, first, report),
        hits(s0, patch),
        s0.params.periodic,
        forall|rp: usize| #[trigger]
            reach_is(p, brush.coupling, rp) ==> patch.ph + 2 * rp > s0.params.h || patch.pw + 2 * rp > s0.params.w,
        cutoff_fits(n, s0.params.cutoff),
        reach_is(p, s0.params.cutoff, s0.rc),
        radial(s0.kernel_edge@, s0.rc as int, by_potential(p, s0.params, false)),
        has_room(s0.params.h as int, s0.params.w as int, s0.rc as int, s0.params.periodic),
        0 <= y < s0.params.h,
        0 <= x < s0.params.w,
        cell_distances(s0.params, y, x, dist),
    ensures
        (n.val)(s1.u_edge@[y * s0.params.w + x]) == tally(
            s0.params.h * s0.params.w,
            |c: int|
                ((n.val)(s0.cov@[c]) * (n.val)(s0.line_density) + (n.val)(s1.paint@[c])) * potential_at(
                    n,
                    dist(c),
                    s0.params,
                    false,
                ),
        ),
{
    let (q, c, ul, bs) = choose|q: Laid<P::Real>, c: Laid<P::Real>, u: Laid<P::Real>, bs: Seq<Laid<bool>>| #[trigger]
        laid_down_by(p, s0, s1, patch, brush, first, report, q, c, u, bs);
    let (rp, table, du) = choose|rp: usize, table: Seq<P::Real>, du: Seq<P::Real>| #[trigger]
        repotentialed_by(p, s0, s1, patch, brush, ul, report.de_field, rp, table, du);
    assert(!hits_wide(s0, patch, rp as int));
    law_potential_afresh_is_that_of_lines_and_paint(
        p,
        n,
        s0.params,
        s0.cov@,
        s0.line_density,
        s1.paint@,
        s0.kernel_edge@,
        s0.rc,
        s1.u_edge@,
        y,
        x,
        dist,
    );
}

} // verus!

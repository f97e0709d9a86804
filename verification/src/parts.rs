//! Strokes of several parts, taken back at once.

use crate::fold::{lemma_folded_empty, lemma_folded_push, partials};
use crate::formulas::magnitude;
use crate::lattice::{flat, lemma_flat_bound, lemma_flat_inverse};
use crate::paint::{hits_wide, laid_down_by, opened, records, repotentialed_by, Record};
use crate::patch::{lemma_placed_wf, merged, Laid};
use crate::physics::{plus_step, Brush, PaintReport, Physics};
use crate::rounding::rounds_within;
use crate::sim::{all_laid, Sim, STROKE_UNDO_CAP};
use crate::stroke::StrokePatch;
use crate::tally::tally;
use crate::undo::{clear_step, lemma_closed_taken_back, lemma_marked, marked, merged_all, merging, minus_step, same_paint, undone_by};
use vstd::prelude::*;

verus! {

/// One part of a stroke: the gas before and after it, and what it laid down.
pub struct Part<R> {
    pub before: Sim<R>,
    pub after: Sim<R>,
    pub patch: StrokePatch<R>,
    pub brush: Brush<R>,
    pub report: PaintReport<R>,
    pub q: Laid<R>,
    pub c: Laid<R>,
    pub u: Laid<R>,
    pub bs: Seq<Laid<bool>>,
}

/// Part `k` of a stroke is laid down, and opens its record if it is the first.
pub open spec fn part_laid<P: Physics>(p: P, parts: Seq<Part<P::Real>>, k: int) -> bool {
    let part = parts[k];
    &&& part.before.wf()
    &&& part.after.wf()
    &&& laid_down_by(
        p,
        part.before,
        part.after,
        part.patch,
        part.brush,
        k == 0,
        part.report,
        part.q,
        part.c,
        part.u,
        part.bs,
    )
    &&& k > 0 ==> same_paint(part.before, parts[k - 1].after)
}

/// `parts` make one stroke, whatever annealing did between them.
pub open spec fn makes_a_stroke<P: Physics>(p: P, parts: Seq<Part<P::Real>>) -> bool {
    &&& parts.len() > 0
    &&& forall|k: int| 0 <= k < parts.len() ==> #[trigger] part_laid(p, parts, k)
}

/// The marks of the first `n` parts, in order.
pub open spec fn marks_of<R>(parts: Seq<Part<R>>, n: nat) -> Seq<Laid<bool>>
    decreases n,
{
    if n == 0 {
        Seq::empty()
    } else {
        marks_of(parts, (n - 1) as nat) + parts[n - 1].bs
    }
}

/// What the first `n` parts of a stroke put on record.
pub open spec fn record_of<R>(parts: Seq<Part<R>>, n: nat) -> Record<R> {
    Record {
        u: Seq::new(n, |k: int| parts[k].u),
        q: Seq::new(n, |k: int| parts[k].q),
        b: marks_of(parts, n),
    }
}

/// The records once the first `n` parts are laid down.
proof fn lemma_records<P: Physics>(p: P, parts: Seq<Part<P::Real>>, n: nat)
    requires
        makes_a_stroke(p, parts),
        0 < n <= parts.len(),
    ensures
        ({
            let base = opened(records(parts[0].before.strokes@), true);
            records(parts[n - 1].after.strokes@) == base.update(base.len() - 1, record_of(parts, n))
        }),
        parts[n - 1].before.params.w == parts[0].before.params.w,
        parts[n - 1].before.line_blocked == parts[0].before.line_blocked,
    decreases n,
{
    let base = opened(records(parts[0].before.strokes@), true);
    let part = parts[n - 1];
    assert(part_laid(p, parts, n - 1));
    if n == 1 {
        assert(base.last().u =~= Seq::empty() && base.last().q =~= Seq::empty() && base.last().b =~= Seq::empty());
        assert(base.last().u.push(part.u) =~= record_of(parts, 1).u);
        assert(base.last().q.push(part.q) =~= record_of(parts, 1).q);
        assert(marks_of(parts, 0) =~= Seq::empty());
        assert(base.last().b + part.bs =~= record_of(parts, 1).b);
    } else {
        lemma_records(p, parts, (n - 1) as nat);
        assert(part_laid(p, parts, n - 2));
        let less = record_of(parts, (n - 1) as nat);
        let there = base.update(base.len() - 1, less);
        assert(records(part.before.strokes@) == there);
        assert(opened(there, false) == there);
        assert(there.last() == less);
        assert(less.u.push(part.u) =~= record_of(parts, n).u);
        assert(less.q.push(part.q) =~= record_of(parts, n).q);
        assert(records(part.after.strokes@) =~= base.update(base.len() - 1, record_of(parts, n)));
    }
}

/// Marks can be cleared off any layer.
proof fn lemma_clearable(h: int, w: int, patches: Seq<Laid<bool>>, x: Seq<bool>) -> (y: Seq<bool>)
    requires
        all_laid(patches, h, w),
        x.len() == h * w,
    ensures
        merged_all(clear_step(), w, patches, x, y),
        y.len() == x.len(),
    decreases patches.len(),
{
    let step = merging(clear_step(), w);
    if patches.len() == 0 {
        lemma_folded_empty::<Seq<bool>, Laid<bool>>(step, x);
        assert(patches =~= Seq::empty());
        x
    } else {
        let (most, last) = (patches.drop_last(), patches.last());
        assert(all_laid(most, h, w) && last.wf(h, w));
        let mid = lemma_clearable(h, w, most, x);
        let y = Seq::new(mid.len(), |c: int| mid[c] && !marked(last, w, c));
        assert(merged(clear_step(), w, last, mid, y)) by {
            assert forall|i: int, j: int| #[trigger] last.has(i, j) implies clear_step()(
                mid[last.under(w, i, j)],
                last.at(i, j),
                y[last.under(w, i, j)],
            ) by {
                lemma_marked(last, h, w, i, j);
                lemma_under_bound(last, h, w, i, j);
            }
        }
        lemma_folded_push(step, x, most, mid, last, y);
        assert(most.push(last) =~= patches);
        y
    }
}

/// A patch lies on the lattice.
proof fn lemma_under_bound<T>(laid: Laid<T>, h: int, w: int, i: int, j: int)
    requires
        laid.wf(h, w),
        laid.has(i, j),
    ensures
        0 <= laid.under(w, i, j) < h * w,
{
    lemma_flat_bound(h, w, laid.rows@[i] as int, laid.cols@[j] as int);
}

/// Clearing the marks of all parts opens what they closed.
proof fn lemma_marks_taken_back<P: Physics>(p: P, parts: Seq<Part<P::Real>>, n: nat, y: Seq<bool>)
    requires
        makes_a_stroke(p, parts),
        0 < n <= parts.len(),
        merged_all(
            clear_step(),
            parts[0].before.params.w as int,
            marks_of(parts, n),
            parts[n - 1].after.paint_blocked@,
            y,
        ),
    ensures
        y == parts[0].before.paint_blocked@,
    decreases n,
{
    let part = parts[n - 1];
    lemma_records(p, parts, n);
    assert(part_laid(p, parts, n - 1));
    let (h, w) = (part.before.params.h as int, part.before.params.w as int);
    let (y0, x0, ph, pw) = (part.patch.y0 as int, part.patch.x0 as int, part.patch.ph as int, part.patch.pw as int);
    lemma_placed_wf(part.patch.cov@, y0, x0, ph, pw, h, w, part.before.params.periodic, part.c);
    let less = marks_of(parts, (n - 1) as nat);
    let x = part.before.paint_blocked@;
    if n == 1 {
        lemma_folded_empty::<Seq<bool>, Laid<bool>>(merging(clear_step(), w), x);
        lemma_closed_taken_back(
            p,
            part.before,
            part.after,
            part.brush.penetrability,
            part.c,
            less,
            part.bs,
            part.report.blocked_new as int,
            x,
            y,
        );
    } else {
        lemma_records(p, parts, (n - 1) as nat);
        assert(part_laid(p, parts, n - 2));
        let rec = part.before.strokes@.last();
        assert(records(part.before.strokes@).last() == rec@);
        assert(rec@.b == less && rec.wf(h, w));
        let x1 = lemma_clearable(h, w, less, x);
        lemma_closed_taken_back(
            p,
            part.before,
            part.after,
            part.brush.penetrability,
            part.c,
            less,
            part.bs,
            part.report.blocked_new as int,
            x1,
            y,
        );
        lemma_marks_taken_back(p, parts, (n - 1) as nat, x1);
    }
}

/// Undo opens all cells that the parts of a stroke closed, and leaves the records
/// from before the stroke, if the oldest did not have to make room for it.
pub proof fn law_undo_opens_what_all_parts_closed<P: Physics>(
    p: P,
    parts: Seq<Part<P::Real>>,
    t1: Sim<P::Real>,
    t2: Sim<P::Real>,
    mid: Seq<P::Real>,
)
    requires
        makes_a_stroke(p, parts),
        same_paint(t1, parts.last().after),
        undone_by(p, t1, t2, mid),
    ensures
        t2.paint_blocked@ == parts[0].before.paint_blocked@,
        t2.blocked@ == parts[0].before.blocked@,
        parts[0].before.strokes@.len() < STROKE_UNDO_CAP ==> records(t2.strokes@) == records(parts[0].before.strokes@),
        t2.occ == t1.occ,
        t2.pos == t1.pos,
{
    let n = parts.len();
    let first = parts[0].before;
    lemma_records(p, parts, n);
    assert(part_laid(p, parts, 0));
    assert(part_laid(p, parts, n - 1));
    lemma_marks_taken_back(p, parts, n, t2.paint_blocked@);
    assert(t2.blocked@ =~= first.blocked@) by {
        assert forall|i: int| 0 <= i < first.blocked@.len() implies t2.blocked@[i] == first.blocked@[i] by {
            assert(first.blocked@[i] == (first.line_blocked@[i] || first.paint_blocked@[i]));
        }
    }
    if first.strokes@.len() < STROKE_UNDO_CAP {
        assert(records(t2.strokes@) =~= records(first.strokes@));
    }
}

/// What a patch holds for lattice cell `c`, if it covers it.
pub open spec fn change_at<R>(laid: Laid<R>, w: int, c: int) -> Option<R> {
    if laid.covers(w, c) {
        let (i, j) = choose|i: int, j: int| #[trigger] laid.has(i, j) && laid.under(w, i, j) == c;
        Some(laid.at(i, j))
    } else {
        None
    }
}

/// How much a change comes to, whatever its sign.
pub open spec fn size_of<R>(val: spec_fn(R) -> real, change: Option<R>) -> real {
    match change {
        Some(d) => magnitude(val(d)),
        None => 0 as real,
    }
}

/// `r` is `a` with `change` added, up to rounding of the sum or of the change.
spec fn added<R>(val: spec_fn(R) -> real, eps: real, a: R, change: Option<R>, r: R) -> bool {
    match change {
        Some(d) => {
            ||| magnitude(val(r) - (val(a) + val(d))) <= eps * magnitude(val(a) + val(d))
            ||| magnitude(val(d) - (val(r) - val(a))) <= eps * magnitude(val(r) - val(a))
        },
        None => r == a,
    }
}

/// `r` is `a` with `change` taken off, up to rounding.
spec fn taken_off<R>(val: spec_fn(R) -> real, eps: real, a: R, change: Option<R>, r: R) -> bool {
    match change {
        Some(d) => magnitude(val(r) - (val(a) - val(d))) <= eps * magnitude(val(a) - val(d)),
        None => r == a,
    }
}

spec fn change_read<R>(val: spec_fn(R) -> real, change: Option<R>) -> real {
    match change {
        Some(d) => val(d),
        None => 0 as real,
    }
}

/// One step of a sum that is `err` off its exact value `s`, to `s + d`.
proof fn lemma_added<R>(val: spec_fn(R) -> real, eps: real, b: real, a: R, change: Option<R>, r: R, s: real, err: real)
    requires
        0 as real <= eps,
        eps + eps <= 1 as real,
        added(val, eps, a, change, r),
        magnitude(val(a) - s) <= err <= b,
        magnitude(s + change_read(val, change)) <= b,
        magnitude(change_read(val, change)) <= b,
    ensures
        magnitude(val(r) - (s + change_read(val, change))) <= err + eps * (b + b),
{
    let d = change_read(val, change);
    if change is Some {
        let (x, y) = (val(a), val(r));
        if magnitude(y - (x + d)) <= eps * magnitude(x + d) {
            let m = magnitude(x + d);
            assert(m <= b + b);
            assert(eps * m <= eps * (b + b)) by (nonlinear_arith)
                requires
                    eps >= 0 as real,
                    m <= b + b,
            ;
        } else {
            let m = magnitude(y - x);
            assert(eps * m + eps * m <= m) by (nonlinear_arith)
                requires
                    eps + eps <= 1 as real,
                    m >= 0 as real,
            ;
            assert(m <= b + b);
            assert(eps * m <= eps * (b + b)) by (nonlinear_arith)
                requires
                    eps >= 0 as real,
                    m <= b + b,
            ;
        }
    } else {
        assert(eps * (b + b) >= 0 as real) by (nonlinear_arith)
            requires
                eps >= 0 as real,
                b >= 0 as real,
        ;
    }
}

/// One step back of a sum that is `err` off its exact value `s`, to `s - d`.
proof fn lemma_taken_off<R>(val: spec_fn(R) -> real, eps: real, b: real, a: R, change: Option<R>, r: R, s: real, err: real)
    requires
        0 as real <= eps,
        taken_off(val, eps, a, change, r),
        magnitude(val(a) - s) <= err <= b,
        magnitude(s - change_read(val, change)) <= b,
    ensures
        magnitude(val(r) - (s - change_read(val, change))) <= err + eps * (b + b),
{
    let d = change_read(val, change);
    if change is Some {
        let m = magnitude(val(a) - d);
        assert(m <= b + b);
        assert(eps * m <= eps * (b + b)) by (nonlinear_arith)
            requires
                eps >= 0 as real,
                m <= b + b,
        ;
    } else {
        assert(eps * (b + b) >= 0 as real) by (nonlinear_arith)
            requires
                eps >= 0 as real,
                b >= 0 as real,
        ;
    }
}

/// The size of all changes of a cell by the first `n` of `changes`.
pub open spec fn sizes<R>(val: spec_fn(R) -> real, changes: Seq<Option<R>>, n: int) -> real {
    tally(n, |k: int| size_of(val, changes[k]))
}

/// The sum of the first `n` of `changes`.
spec fn changes_read<R>(val: spec_fn(R) -> real, changes: Seq<Option<R>>, n: int) -> real {
    tally(n, |k: int| change_read(val, changes[k]))
}

/// Sums of changes, and of those that are left, are no larger than their sizes.
proof fn lemma_sums_within<R>(val: spec_fn(R) -> real, changes: Seq<Option<R>>, v: real, b: real, n: int, k: int)
    requires
        0 <= k <= n,
        magnitude(v) + sizes(val, changes, n) <= b,
    ensures
        magnitude(v + changes_read(val, changes, k)) <= b,
        magnitude(v + changes_read(val, changes, n) - changes_read(val, changes, k)) <= b,
        k < n ==> magnitude(change_read(val, changes[k])) <= b,
{
    lemma_sum_within(val, changes, 0, k);
    lemma_sum_within(val, changes, k, n);
    lemma_sum_within(val, changes, 0, n);
    if k < n {
        lemma_sum_within(val, changes, k + 1, n);
    }
}

proof fn lemma_sum_within<R>(val: spec_fn(R) -> real, changes: Seq<Option<R>>, k: int, n: int)
    requires
        0 <= k <= n,
    ensures
        magnitude(changes_read(val, changes, n) - changes_read(val, changes, k)) <= sizes(val, changes, n) - sizes(
            val,
            changes,
            k,
        ),
        sizes(val, changes, 0) == 0 as real,
        changes_read(val, changes, 0) == 0 as real,
        0 as real <= sizes(val, changes, k),
    decreases n,
{
    if k < n {
        lemma_sum_within(val, changes, k, n - 1);
    } else if n > 0 {
        lemma_sum_within(val, changes, n - 1, n - 1);
    }
}

/// There and back: what a cell holds after all changes are added, first to last,
/// and taken off again, first to last, is off by no more than the rounding of
/// each.
proof fn lemma_there_and_back_in_parts<R>(
    val: spec_fn(R) -> real,
    eps: real,
    b: real,
    changes: Seq<Option<R>>,
    there: Seq<R>,
    back: Seq<R>,
    j: nat,
)
    requires
        0 as real <= eps,
        eps + eps <= 1 as real,
        there.len() == changes.len() + 1,
        back.len() == changes.len() + 1,
        there.last() == back[0],
        forall|k: int| 0 <= k < changes.len() ==> added(val, eps, there[k], #[trigger] changes[k], there[k + 1]),
        forall|k: int| 0 <= k < changes.len() ==> taken_off(val, eps, back[k], #[trigger] changes[k], back[k + 1]),
        magnitude(val(there[0])) + sizes(val, changes, changes.len() as int) <= b,
        (2 * changes.len()) as real * (eps * (b + b)) <= b,
        j <= changes.len(),
    ensures
        ({
            let (n, e) = (changes.len() as int, eps * (b + b));
            let v = val(there[0]);
            &&& magnitude(val(there[j as int]) - (v + changes_read(val, changes, j as int))) <= (j as int) as real * e
            &&& magnitude(val(back[j as int]) - (v + changes_read(val, changes, n) - changes_read(val, changes, j as int))) <= (n
                + j) as real * e
        }),
    decreases j,
{
    let (n, e) = (changes.len() as int, eps * (b + b));
    let v = val(there[0]);
    lemma_sum_within(val, changes, 0, n);
    assert(e >= 0 as real) by (nonlinear_arith)
        requires
            e == eps * (b + b),
            eps >= 0 as real,
            b >= 0 as real,
    ;
    if j == 0 {
        assert(0 as real * e == 0 as real) by (nonlinear_arith);
        if n > 0 {
            lemma_all_there(val, eps, b, changes, there, n as nat);
        }
    } else {
        lemma_there_and_back_in_parts(val, eps, b, changes, there, back, (j - 1) as nat);
        lemma_all_there(val, eps, b, changes, there, j);
        let k = j - 1;
        assert(taken_off(val, eps, back[k], changes[k], back[k + 1]));
        lemma_sums_within(val, changes, v, b, n, k);
        lemma_sums_within(val, changes, v, b, n, k + 1);
        let (less, more, most) = ((n + k) as real, (n + j) as real, (2 * n) as real);
        assert(less * e <= most * e) by (nonlinear_arith)
            requires
                less <= most,
                e >= 0 as real,
        ;
        let s = v + changes_read(val, changes, n) - changes_read(val, changes, k);
        lemma_taken_off(val, eps, b, back[k], changes[k], back[k + 1], s, less * e);
        assert(more * e == less * e + e) by (nonlinear_arith)
            requires
                more == less + 1 as real,
        ;
    }
}

/// The way there.
proof fn lemma_all_there<R>(
    val: spec_fn(R) -> real,
    eps: real,
    b: real,
    changes: Seq<Option<R>>,
    there: Seq<R>,
    j: nat,
)
    requires
        0 as real <= eps,
        eps + eps <= 1 as real,
        there.len() == changes.len() + 1,
        forall|k: int| 0 <= k < changes.len() ==> added(val, eps, there[k], #[trigger] changes[k], there[k + 1]),
        magnitude(val(there[0])) + sizes(val, changes, changes.len() as int) <= b,
        (2 * changes.len()) as real * (eps * (b + b)) <= b,
        j <= changes.len(),
    ensures
        magnitude(val(there[j as int]) - (val(there[0]) + changes_read(val, changes, j as int))) <= (j as int) as real * (eps
            * (b + b)),
    decreases j,
{
    let (n, e) = (changes.len() as int, eps * (b + b));
    let v = val(there[0]);
    lemma_sum_within(val, changes, 0, n);
    assert(e >= 0 as real) by (nonlinear_arith)
        requires
            e == eps * (b + b),
            eps >= 0 as real,
            b >= 0 as real,
    ;
    if j == 0 {
        assert(0 as real * e == 0 as real) by (nonlinear_arith);
    } else {
        lemma_all_there(val, eps, b, changes, there, (j - 1) as nat);
        let k = j - 1;
        assert(added(val, eps, there[k], changes[k], there[k + 1]));
        lemma_sums_within(val, changes, v, b, n, k);
        lemma_sums_within(val, changes, v, b, n, k + 1);
        let (less, more, most) = (k as real, (j as int) as real, (2 * n) as real);
        assert(less * e <= most * e) by (nonlinear_arith)
            requires
                less <= most,
                e >= 0 as real,
        ;
        lemma_added(val, eps, b, there[k], changes[k], there[k + 1], v + changes_read(val, changes, k), less * e);
        assert(more * e == less * e + e) by (nonlinear_arith)
            requires
                more == less + 1 as real,
        ;
    }
}

/// What a merge adds to a cell.
proof fn lemma_merge_adds<P: Physics>(
    p: P,
    val: spec_fn(P::Real) -> real,
    eps: real,
    w: int,
    laid: Laid<P::Real>,
    before: Seq<P::Real>,
    after: Seq<P::Real>,
    c: int,
)
    requires
        rounds_within(p, val, eps),
        merged(plus_step(p), w, laid, before, after),
        0 <= c < before.len(),
    ensures
        added(val, eps, before[c], change_at(laid, w, c), after[c]),
{
    if laid.covers(w, c) {
        let (i, j) = choose|i: int, j: int| #[trigger] laid.has(i, j) && laid.under(w, i, j) == c;
        assert(plus_step(p)(before[c], laid.at(i, j), after[c]));
    }
}

/// What a part adds to the potential of a cell.
proof fn lemma_part_adds<P: Physics>(p: P, val: spec_fn(P::Real) -> real, eps: real, parts: Seq<Part<P::Real>>, k: int, c: int)
    requires
        rounds_within(p, val, eps),
        part_laid(p, parts, k),
        0 <= c < parts[k].before.u_edge@.len(),
    ensures
        added(
            val,
            eps,
            parts[k].before.u_edge@[c],
            change_at(parts[k].u, parts[k].before.params.w as int, c),
            parts[k].after.u_edge@[c],
        ),
{
    let part = parts[k];
    let (s0, s1, u) = (part.before, part.after, part.u);
    let (h, w) = (s0.params.h as int, s0.params.w as int);
    let (rp, table, du) = choose|rp: usize, table: Seq<P::Real>, du: Seq<P::Real>| #[trigger]
        repotentialed_by(p, s0, s1, part.patch, part.brush, u, part.report.de_field, rp, table, du);
    if hits_wide(s0, part.patch, rp as int) {
        lemma_merge_adds(p, val, eps, w, u, s0.u_edge@, s1.u_edge@, c);
    } else {
        lemma_flat_inverse(h, w, c);
        assert(u.has(c / w, c % w) && u.under(w, c / w, c % w) == c);
        let (i, j) = choose|i: int, j: int| #[trigger] u.has(i, j) && u.under(w, i, j) == c;
        assert(c == flat(w, i, j) && u.at(i, j) == u.cells@[c]);
        assert(call_ensures(P::minus, (&p, s1.u_edge@[c], s0.u_edge@[c]), u.cells@[c]));
    }
}

/// Merging keeps the length of a layer.
proof fn lemma_trace_lengths<T, U>(step: spec_fn(T, U, T) -> bool, w: int, patches: Seq<Laid<U>>, x: Seq<T>, trace: Seq<Seq<T>>, k: nat)
    requires
        partials(merging(step, w), x, patches, trace),
        k <= patches.len(),
    ensures
        trace[k as int].len() == x.len(),
    decreases k,
{
    if k > 0 {
        lemma_trace_lengths(step, w, patches, x, trace, (k - 1) as nat);
        let laid = patches[k - 1];
        assert(merging(step, w)(trace[k - 1], laid, trace[k as int]));
    }
}

/// What taking patches off again leaves of a cell.
proof fn lemma_all_taken_off<P: Physics>(
    p: P,
    val: spec_fn(P::Real) -> real,
    eps: real,
    w: int,
    patches: Seq<Laid<P::Real>>,
    x: Seq<P::Real>,
    y: Seq<P::Real>,
    c: int,
) -> (back: Seq<P::Real>)
    requires
        rounds_within(p, val, eps),
        merged_all(minus_step(p), w, patches, x, y),
        0 <= c < x.len(),
    ensures
        back.len() == patches.len() + 1,
        back[0] == x[c],
        back.last() == y[c],
        y.len() == x.len(),
        forall|k: int|
            0 <= k < patches.len() ==> taken_off(val, eps, back[k], change_at(#[trigger] patches[k], w, c), back[k + 1]),
{
    let step = minus_step(p);
    let trace = choose|trace: Seq<Seq<P::Real>>| #[trigger]
        partials(merging(step, w), x, patches, trace) && trace.last() == y;
    let back = Seq::new(trace.len(), |k: int| trace[k][c]);
    lemma_trace_lengths(step, w, patches, x, trace, patches.len());
    assert forall|k: int| 0 <= k < patches.len() implies taken_off(
        val,
        eps,
        back[k],
        change_at(#[trigger] patches[k], w, c),
        back[k + 1],
    ) by {
        let laid = patches[k];
        lemma_trace_lengths(step, w, patches, x, trace, k as nat);
        assert(merging(step, w)(trace[k], laid, trace[k + 1]));
        if laid.covers(w, c) {
            let (i, j) = choose|i: int, j: int| #[trigger] laid.has(i, j) && laid.under(w, i, j) == c;
            assert(minus_step(p)(trace[k][c], laid.at(i, j), trace[k + 1][c]));
        }
    }
    back
}

/// What the parts of a stroke change the potential of a cell by.
pub open spec fn potential_changes<R>(parts: Seq<Part<R>>, c: int) -> Seq<Option<R>> {
    Seq::new(parts.len(), |k: int| change_at(parts[k].u, parts[0].before.params.w as int, c))
}

/// What the parts of a stroke change the painted charge of a cell by.
pub open spec fn charge_changes<R>(parts: Seq<Part<R>>, c: int) -> Seq<Option<R>> {
    Seq::new(parts.len(), |k: int| change_at(parts[k].q, parts[0].before.params.w as int, c))
}

/// How far `n` roundings there and `n` back can lead astray, of sums no larger
/// than twice `b`.
pub open spec fn drift(eps: real, n: int, b: real) -> real {
    (2 * n) as real * (eps * (b + b))
}

/// Undo takes all parts of a stroke back up to rounding, whatever annealing did
/// between them and since. If what a cell held before, and all that the parts
/// changed it by, come to no more than `b`, and the drift to no more than that,
/// then the potential of the cell, and its painted charge before noise is taken
/// out of it, are off by no more than the drift.
pub proof fn law_undo_is_off_by_the_rounding_of_all_parts<P: Physics>(
    p: P,
    val: spec_fn(P::Real) -> real,
    eps: real,
    parts: Seq<Part<P::Real>>,
    t1: Sim<P::Real>,
    t2: Sim<P::Real>,
    mid: Seq<P::Real>,
    c: int,
    b: real,
)
    requires
        rounds_within(p, val, eps),
        eps + eps <= 1 as real,
        makes_a_stroke(p, parts),
        same_paint(t1, parts.last().after),
        undone_by(p, t1, t2, mid),
        0 <= c < parts[0].before.cells(),
        drift(eps, parts.len() as int, b) <= b,
    ensures
        ({
            let (v, changes) = (parts[0].before.u_edge@[c], potential_changes(parts, c));
            magnitude(val(v)) + sizes(val, changes, parts.len() as int) <= b ==> magnitude(val(t2.u_edge@[c]) - val(v))
                <= drift(eps, parts.len() as int, b)
        }),
        ({
            let (v, changes) = (parts[0].before.paint@[c], charge_changes(parts, c));
            magnitude(val(v)) + sizes(val, changes, parts.len() as int) <= b ==> magnitude(val(mid[c]) - val(v)) <= drift(
                eps,
                parts.len() as int,
                b,
            )
        }),
{
    let n = parts.len();
    let first = parts[0].before;
    let w = first.params.w as int;
    lemma_records(p, parts, n);
    assert(part_laid(p, parts, 0));
    assert(part_laid(p, parts, n - 1));
    let last = records(t1.strokes@).last();
    assert(last == record_of(parts, n));
    let (us, qs) = (potential_changes(parts, c), charge_changes(parts, c));
    let by_u = Seq::new(
        n + 1,
        |k: int|
            if k == 0 {
                first.u_edge@[c]
            } else {
                parts[k - 1].after.u_edge@[c]
            },
    );
    let by_q = Seq::new(
        n + 1,
        |k: int|
            if k == 0 {
                first.paint@[c]
            } else {
                parts[k - 1].after.paint@[c]
            },
    );
    assert forall|k: int| 0 <= k < n implies added(val, eps, by_u[k], #[trigger] us[k], by_u[k + 1]) && added(
        val,
        eps,
        by_q[k],
        qs[k],
        by_q[k + 1],
    ) && parts[k].after.paint@.len() == first.paint@.len() && parts[k].after.u_edge@.len() == first.u_edge@.len() by {
        lemma_part_in_place(p, val, eps, parts, k, c);
    }
    assert forall|k: int| 0 <= k < n implies added(val, eps, by_q[k], #[trigger] qs[k], by_q[k + 1]) by {
        assert(added(val, eps, by_u[k], us[k], by_u[k + 1]));
    }
    assert(added(val, eps, by_u[n - 1], us[n - 1], by_u[n as int]));
    if magnitude(val(first.u_edge@[c])) + sizes(val, us, n as int) <= b {
        let back = lemma_all_taken_off(p, val, eps, w, last.u, t1.u_edge@, t2.u_edge@, c);
        assert forall|k: int| 0 <= k < n implies taken_off(val, eps, back[k], #[trigger] us[k], back[k + 1]) by {
            assert(last.u[k] == parts[k].u);
        }
        lemma_there_and_back_in_parts(val, eps, b, us, by_u, back, n);
    }
    if magnitude(val(first.paint@[c])) + sizes(val, qs, n as int) <= b {
        let back = lemma_all_taken_off(p, val, eps, w, last.q, t1.paint@, mid, c);
        assert forall|k: int| 0 <= k < n implies taken_off(val, eps, back[k], #[trigger] qs[k], back[k + 1]) by {
            assert(last.q[k] == parts[k].q);
        }
        lemma_there_and_back_in_parts(val, eps, b, qs, by_q, back, n);
    }
}

/// What a part adds to a cell, counted on from the part before it.
proof fn lemma_part_in_place<P: Physics>(p: P, val: spec_fn(P::Real) -> real, eps: real, parts: Seq<Part<P::Real>>, k: int, c: int)
    requires
        rounds_within(p, val, eps),
        makes_a_stroke(p, parts),
        0 <= k < parts.len(),
        0 <= c < parts[0].before.cells(),
    ensures
        ({
            let w = parts[0].before.params.w as int;
            let (u, q) = if k == 0 {
                (parts[0].before.u_edge@, parts[0].before.paint@)
            } else {
                (parts[k - 1].after.u_edge@, parts[k - 1].after.paint@)
            };
            &&& added(val, eps, u[c], change_at(parts[k].u, w, c), parts[k].after.u_edge@[c])
            &&& added(val, eps, q[c], change_at(parts[k].q, w, c), parts[k].after.paint@[c])
        }),
        parts[k].after.paint@.len() == parts[0].before.paint@.len(),
        parts[k].after.u_edge@.len() == parts[0].before.u_edge@.len(),
        parts[k].before.paint@.len() == parts[0].before.paint@.len(),
    decreases k,
{
    assert(part_laid(p, parts, 0));
    assert(part_laid(p, parts, k));
    lemma_records(p, parts, (k + 1) as nat);
    if k > 0 {
        lemma_part_in_place(p, val, eps, parts, k - 1, c);
        assert(part_laid(p, parts, k - 1));
    }
    let part = parts[k];
    lemma_part_adds(p, val, eps, parts, k, c);
    lemma_merge_adds(p, val, eps, part.before.params.w as int, part.q, part.before.paint@, part.after.paint@, c);
}

} // verus!

//! Taking strokes back.

use crate::anneal::{law_annealing_counts_iterations, ran};
use crate::convolve::spread;
use crate::fold::{folded, lemma_folded_empty, lemma_folded_push, partials};
use crate::lattice::{count_lit, flat, lemma_flat_bound, lemma_flat_inverse};
use crate::paint::{
    cast_afresh, cast_from, closed, closed_by, hits_wide, laid_down_by, opened, or_step, records, repotentialed,
    repotentialed_by,
};
use crate::patch::{
    law_merge_is_undone, lemma_placed_wf, lemma_under_distinct, merge, merged, Laid,
};
use crate::physics::{plus_step, Brush, PaintReport, Physics};
use crate::scene::{cast_by_lines, totals};
use crate::sim::{all_laid, lemma_same_board, Sim, STROKE_UNDO_CAP};
use crate::spectrum::keeps_length;
use crate::stroke::{filled, StrokePatch};
use crate::terms::{snap, snap_is};
use vstd::prelude::*;

verus! {

/// One number less off another.
pub open spec fn minus_step<P: Physics>(p: P) -> spec_fn(P::Real, P::Real, P::Real) -> bool {
    |a: P::Real, b: P::Real, r: P::Real| call_ensures(P::minus, (&p, a, b), r)
}

/// A cell is open from now on if the patch says so.
pub open spec fn clear_step() -> spec_fn(bool, bool, bool) -> bool {
    |a: bool, b: bool, r: bool| r == (a && !b)
}

/// One patch more merged into a layer.
pub open spec fn merging<T, U>(step: spec_fn(T, U, T) -> bool, w: int) -> spec_fn(Seq<T>, Laid<U>, Seq<T>) -> bool {
    |a: Seq<T>, laid: Laid<U>, b: Seq<T>| merged(step, w, laid, a, b)
}

/// `after` is `before` with all of `patches` merged into it in turn.
pub open spec fn merged_all<T, U>(
    step: spec_fn(T, U, T) -> bool,
    w: int,
    patches: Seq<Laid<U>>,
    before: Seq<T>,
    after: Seq<T>,
) -> bool {
    folded(merging(step, w), before, patches, after)
}

/// Merges all of `patches` in turn.
fn merge_all<T: Copy, U: Copy, F: Fn(T, U) -> T>(
    target: &mut Vec<T>,
    h: usize,
    w: usize,
    patches: &Vec<Laid<U>>,
    f: &F,
    Ghost(step): Ghost<spec_fn(T, U, T) -> bool>,
)
    requires
        old(target)@.len() == h * w,
        all_laid(patches@, h as int, w as int),
        forall|a: T, b: U| #[trigger] f.requires((a, b)),
        forall|a: T, b: U, r: T| #[trigger] f.ensures((a, b), r) ==> step(a, b, r),
    ensures
        final(target)@.len() == h * w,
        merged_all(step, w as int, patches@, old(target)@, final(target)@),
{
    let ghost before = target@;
    proof {
        lemma_folded_empty::<Seq<T>, Laid<U>>(merging(step, w as int), before);
        assert(patches@.take(0) =~= Seq::empty());
    }
    let mut i: usize = 0;
    while i < patches.len()
        invariant
            i <= patches@.len(),
            target@.len() == h * w,
            all_laid(patches@, h as int, w as int),
            forall|a: T, b: U| #[trigger] f.requires((a, b)),
            forall|a: T, b: U, r: T| #[trigger] f.ensures((a, b), r) ==> step(a, b, r),
            merged_all(step, w as int, patches@.take(i as int), before, target@),
        decreases patches@.len() - i,
    {
        let ghost mid = target@;
        merge(target, h, w, &patches[i], f, Ghost(step));
        proof {
            lemma_folded_push(merging(step, w as int), before, patches@.take(i as int), mid, patches@[i as int], target@);
            assert(patches@.take(i as int).push(patches@[i as int]) =~= patches@.take(i + 1));
        }
        i = i + 1;
    }
    assert(patches@.take(i as int) =~= patches@);
}

/// `after` is `before` with the noise of earlier sums taken out.
pub open spec fn snapped<P: Physics>(p: P, before: Seq<P::Real>, after: Seq<P::Real>) -> bool {
    &&& after.len() == before.len()
    &&& forall|c: int| 0 <= c < before.len() ==> snap_is(p, before[c], #[trigger] after[c])
}

/// `s1` is `s0` with its last stroke taken back.
pub open spec fn undone<P: Physics>(p: P, s0: Sim<P::Real>, s1: Sim<P::Real>) -> bool {
    exists|mid: Seq<P::Real>| #[trigger] undone_by(p, s0, s1, mid)
}

pub open spec fn undone_by<P: Physics>(p: P, s0: Sim<P::Real>, s1: Sim<P::Real>, mid: Seq<P::Real>) -> bool {
    let w = s0.params.w as int;
    let last = records(s0.strokes@).last();
    &&& s1 == (Sim {
        strokes: s1.strokes,
        paint: s1.paint,
        u_edge: s1.u_edge,
        energy: s1.energy,
        paint_blocked: s1.paint_blocked,
        blocked: s1.blocked,
        ..s0
    })
    &&& s0.strokes@.len() > 0
    &&& records(s1.strokes@) == records(s0.strokes@).drop_last()
    &&& merged_all(minus_step(p), w, last.u, s0.u_edge@, s1.u_edge@)
    &&& merged_all(minus_step(p), w, last.q, s0.paint@, mid)
    &&& snapped(p, mid, s1.paint@)
    &&& merged_all(clear_step(), w, last.b, s0.paint_blocked@, s1.paint_blocked@)
    &&& s1.blocked@ == Seq::new(s0.blocked@.len(), |c: int| s0.line_blocked@[c] || s1.paint_blocked@[c])
    &&& totals(p, s1.layout(), s1.energy)
}

impl<R: Copy> Sim<R> {
    /// Takes the last stroke's charge, potential and closed cells back. The
    /// particles stay where annealing has led them since. Returns whether
    /// there was a stroke to take back.
    pub fn undo_stroke<P: Physics<Real = R>>(&mut self, p: &P) -> (r: bool)
        requires
            keeps_length(*p),
            old(self).wf(),
        ensures
            final(self).wf(),
            r == (old(self).strokes@.len() > 0),
            if r {
                undone(*p, *old(self), *final(self))
            } else {
                *final(self) == *old(self)
            },
    {
        let ghost s0 = *self;
        if self.strokes.len() == 0 {
            return false;
        }
        let rec = match self.strokes.pop() {
            Some(rec) => rec,
            None => {
                return false;
            },
        };
        proof {
            assert(rec == s0.strokes@.last());
            assert(rec.wf(s0.params.h as int, s0.params.w as int));
            assert(records(self.strokes@) =~= records(s0.strokes@).drop_last());
        }
        let (h, w) = (self.params.h, self.params.w);
        let taking = |a: R, b: R| -> (r: R)
            ensures
                call_ensures(P::minus, (p, a, b), r),
            { p.minus(a, b) };
        merge_all(&mut self.u_edge, h, w, &rec.u_patches, &taking, Ghost(minus_step(*p)));
        merge_all(&mut self.paint, h, w, &rec.q_patches, &taking, Ghost(minus_step(*p)));
        let ghost mid = self.paint@;
        let cells = self.paint.len();
        let mut i: usize = 0;
        while i < cells
            invariant
                i <= cells == mid.len(),
                self.paint@.len() == cells,
                *self == (Sim { paint: self.paint, u_edge: self.u_edge, strokes: self.strokes, ..s0 }),
                forall|c: int| 0 <= c < i ==> snap_is(*p, mid[c], #[trigger] self.paint@[c]),
                forall|c: int| i <= c < cells ==> #[trigger] self.paint@[c] == mid[c],
                records(self.strokes@) == records(s0.strokes@).drop_last(),
                self.strokes@ == s0.strokes@.drop_last(),
                merged_all(minus_step(*p), w as int, rec@.u, s0.u_edge@, self.u_edge@),
                self.u_edge@.len() == h * w,
            decreases cells - i,
        {
            let v = snap(p, self.paint[i]);
            self.paint.set(i, v);
            i = i + 1;
        }
        let clear = |a: bool, b: bool| -> (r: bool)
            ensures
                r == (a && !b),
            { a && !b };
        merge_all(&mut self.paint_blocked, h, w, &rec.b_patches, &clear, Ghost(clear_step()));
        let ghost s1 = *self;
        let mut i: usize = 0;
        while i < cells
            invariant
                i <= cells == s0.blocked@.len(),
                cells == s0.line_blocked@.len(),
                self.blocked@.len() == cells,
                self.paint_blocked@.len() == cells,
                *self == (Sim { blocked: self.blocked, ..s1 }),
                s1.line_blocked == s0.line_blocked,
                forall|c: int| 0 <= c < i ==> #[trigger] self.blocked@[c] == (s0.line_blocked@[c] || s1.paint_blocked@[c]),
            decreases cells - i,
        {
            let shut = self.line_blocked[i] || self.paint_blocked[i];
            self.blocked.set(i, shut);
            i = i + 1;
        }
        proof {
            lemma_same_board(s0, *self);
        }
        self.energy = self.total_energy(p);
        proof {
            assert(self.blocked@ =~= Seq::new(s0.blocked@.len(), |c: int| s0.line_blocked@[c] || self.paint_blocked@[c]));
            assert(undone_by(*p, s0, *self, mid));
        }
        true
    }
}

/// `s1` is `s0` with all paint wiped off, that of forgotten strokes too: nothing
/// is painted, lines alone close cells, and the potential and the energy are
/// worked out afresh.
pub open spec fn cleared<P: Physics>(p: P, s0: Sim<P::Real>, s1: Sim<P::Real>) -> bool {
    &&& s1 == (Sim {
        strokes: s1.strokes,
        paint: s1.paint,
        u_edge: s1.u_edge,
        energy: s1.energy,
        paint_blocked: s1.paint_blocked,
        blocked: s1.blocked,
        ..s0
    })
    &&& s1.strokes@.len() == 0
    &&& s1.paint@.len() == s0.paint@.len()
    &&& forall|c: int| 0 <= c < s1.paint@.len() ==> call_ensures(P::zero, (&p,), #[trigger] s1.paint@[c])
    &&& s1.paint_blocked@ == Seq::new(s0.paint_blocked@.len(), |c: int| false)
    &&& s1.blocked@ == s0.line_blocked@
    &&& cast_afresh(
        p,
        s0.params,
        s0.cov@,
        s0.line_density,
        s1.paint@,
        s0.kernel_edge@,
        s0.rc as int,
        s1.u_edge@,
    )
    &&& totals(p, s1.layout(), s1.energy)
}

impl<R: Copy> Sim<R> {
    /// Wipes all paint off. The particles stay where they are.
    pub fn clear_paint<P: Physics<Real = R>>(&mut self, p: &P)
        requires
            keeps_length(*p),
            old(self).wf(),
        ensures
            final(self).wf(),
            cleared(*p, *old(self), *final(self)),
    {
        let ghost s0 = *self;
        let cells = self.paint.len();
        let zero = p.zero();
        self.strokes = Vec::new();
        self.paint = filled(zero, cells);
        self.paint_blocked = filled(false, cells);
        let mut blocked: Vec<bool> = Vec::with_capacity(cells);
        let mut i: usize = 0;
        while i < cells
            invariant
                i <= cells == self.line_blocked@.len(),
                blocked@ =~= self.line_blocked@.take(i as int),
            decreases cells - i,
        {
            blocked.push(self.line_blocked[i]);
            i = i + 1;
        }
        self.blocked = blocked;
        proof {
            assert(self.blocked@ =~= s0.line_blocked@);
            lemma_same_board(s0, *self);
        }
        self.u_edge = self.rebuild_u_edge(p);
        self.energy = self.total_energy(p);
    }
}

/// Once the paint is wiped off, the potential is that which the lines alone
/// cast, as when the gas was set up, where adding nothing changes nothing.
pub proof fn law_clearing_leaves_what_the_lines_cast<P: Physics>(p: P, s0: Sim<P::Real>, s1: Sim<P::Real>)
    requires
        s0.wf(),
        cleared(p, s0, s1),
        forall|a: P::Real, z: P::Real, r: P::Real|
            call_ensures(P::zero, (&p,), z) && #[trigger] call_ensures(P::plus, (&p, a, z), r) ==> r == a,
    ensures
        cast_by_lines(p, s0.params, s0.cov@, s0.line_density, s0.kernel_edge@, s0.rc as int, s1.u_edge@),
{
    let (h, w, rc, periodic) = (s0.params.h as int, s0.params.w as int, s0.rc as int, s0.params.periodic);
    let (line, edge) = choose|line: Seq<P::Real>, edge: Seq<P::Real>| #[trigger]
        cast_from(p, s0.cov@, s0.line_density, s1.paint@, line, edge) && spread(
            p,
            edge,
            h,
            w,
            s0.kernel_edge@,
            rc,
            periodic,
            s1.u_edge@,
        );
    assert forall|i: int| 0 <= i < s0.cov@.len() implies edge[i] == line[i] by {
        assert(call_ensures(P::zero, (&p,), s1.paint@[i]));
        assert(call_ensures(P::plus, (&p, line[i], s1.paint@[i]), edge[i]));
    }
    assert(edge =~= line);
    assert(spread(p, edge, h, w, s0.kernel_edge@, rc, periodic, s1.u_edge@));
}

/// A step that has one outcome.
pub open spec fn exactly<T, U>(f: spec_fn(T, U) -> T) -> spec_fn(T, U, T) -> bool {
    |a: T, b: U, r: T| r == f(a, b)
}

/// Sums and differences are `give` and `take`, which work as on a ledger: what
/// was added can be taken off again, in any order, and what two numbers differ
/// by leads from one to the other.
pub open spec fn ledger<P: Physics>(
    p: P,
    give: spec_fn(P::Real, P::Real) -> P::Real,
    take: spec_fn(P::Real, P::Real) -> P::Real,
) -> bool {
    &&& forall|a: P::Real, b: P::Real, r: P::Real| #[trigger] call_ensures(P::plus, (&p, a, b), r) ==> r == give(a, b)
    &&& forall|a: P::Real, b: P::Real, r: P::Real| #[trigger] call_ensures(P::minus, (&p, a, b), r) ==> r == take(a, b)
    &&& forall|a: P::Real, b: P::Real| #[trigger] take(give(a, b), b) == a
    &&& forall|a: P::Real, b: P::Real| #[trigger] give(b, take(a, b)) == a
    &&& forall|a: P::Real, b: P::Real, c: P::Real| #[trigger] take(give(a, b), c) == give(take(a, c), b)
}

/// A merge by a step is a merge by any step that allows for more.
proof fn lemma_merged_weaker<T, U>(
    step: spec_fn(T, U, T) -> bool,
    weak: spec_fn(T, U, T) -> bool,
    w: int,
    laid: Laid<U>,
    before: Seq<T>,
    after: Seq<T>,
)
    requires
        merged(step, w, laid, before, after),
        forall|a: T, b: U, r: T| #[trigger] step(a, b, r) ==> weak(a, b, r),
    ensures
        merged(weak, w, laid, before, after),
{
    assert forall|i: int, j: int| #[trigger] laid.has(i, j) implies weak(
        before[laid.under(w, i, j)],
        laid.at(i, j),
        after[laid.under(w, i, j)],
    ) by {
        assert(step(before[laid.under(w, i, j)], laid.at(i, j), after[laid.under(w, i, j)]));
    }
}

/// Patches merged in turn: all but the last, and the last.
proof fn lemma_merged_all_push<T, U>(
    step: spec_fn(T, U, T) -> bool,
    w: int,
    patches: Seq<Laid<U>>,
    last: Laid<U>,
    before: Seq<T>,
    after: Seq<T>,
) -> (mid: Seq<T>)
    requires
        merged_all(step, w, patches.push(last), before, after),
    ensures
        merged_all(step, w, patches, before, mid),
        merged(step, w, last, mid, after),
{
    let more = patches.push(last);
    let trace = choose|trace: Seq<Seq<T>>| #[trigger]
        partials(merging(step, w), before, more, trace) && trace.last() == after;
    let n = patches.len() as int;
    let short = trace.take(n + 1);
    assert forall|i: int| #![trigger patches[i]] 0 <= i < patches.len() implies merging(step, w)(short[i], patches[i], short[i + 1]) by {
        assert(more[i] == patches[i]);
    }
    assert(partials(merging(step, w), before, patches, short));
    assert(more[n] == last);
    assert(merging(step, w)(trace[n], more[n], trace[n + 1]));
    trace[n]
}

/// No patches change nothing.
proof fn lemma_merged_all_none<T, U>(step: spec_fn(T, U, T) -> bool, w: int, patches: Seq<Laid<U>>, before: Seq<T>, after: Seq<T>)
    requires
        merged_all(step, w, patches, before, after),
        patches.len() == 0,
    ensures
        after == before,
{
}

/// Adding one patch and taking off another can change places.
proof fn lemma_merges_commute<T, U>(
    give: spec_fn(T, U) -> T,
    take: spec_fn(T, U) -> T,
    h: int,
    w: int,
    more: Laid<U>,
    less: Laid<U>,
    x: Seq<T>,
    y: Seq<T>,
    x1: Seq<T>,
    y1: Seq<T>,
)
    requires
        more.wf(h, w),
        less.wf(h, w),
        x.len() == h * w,
        merged(exactly(give), w, more, x, y),
        merged(exactly(take), w, less, x, x1),
        merged(exactly(take), w, less, y, y1),
        forall|a: T, b: U, c: U| #[trigger] take(give(a, b), c) == give(take(a, c), b),
    ensures
        merged(exactly(give), w, more, x1, y1),
{
    assert forall|i: int, j: int| #[trigger] more.has(i, j) implies exactly(give)(
        x1[more.under(w, i, j)],
        more.at(i, j),
        y1[more.under(w, i, j)],
    ) by {
        let c = more.under(w, i, j);
        lemma_flat_bound(h, w, more.rows@[i] as int, more.cols@[j] as int);
        assert(exactly(give)(x[c], more.at(i, j), y[c]));
        if less.covers(w, c) {
            let (k, l) = choose|k: int, l: int| #[trigger] less.has(k, l) && less.under(w, k, l) == c;
            assert(exactly(take)(x[c], less.at(k, l), x1[c]));
            assert(exactly(take)(y[c], less.at(k, l), y1[c]));
            assert(take(give(x[c], more.at(i, j)), less.at(k, l)) == give(take(x[c], less.at(k, l)), more.at(i, j)));
        } else {
            assert(x1[c] == x[c] && y1[c] == y[c]);
        }
    }
    assert forall|c: int| 0 <= c < x1.len() && !more.covers(w, c) implies #[trigger] y1[c] == x1[c] by {
        assert(y[c] == x[c]);
        if less.covers(w, c) {
            let (k, l) = choose|k: int, l: int| #[trigger] less.has(k, l) && less.under(w, k, l) == c;
            assert(exactly(take)(x[c], less.at(k, l), x1[c]));
            assert(exactly(take)(y[c], less.at(k, l), y1[c]));
        } else {
            assert(x1[c] == x[c] && y1[c] == y[c]);
        }
    }
}

/// A patch added before others are taken off is there after.
proof fn lemma_merges_all_commute<P: Physics>(
    p: P,
    give: spec_fn(P::Real, P::Real) -> P::Real,
    take: spec_fn(P::Real, P::Real) -> P::Real,
    h: int,
    w: int,
    more: Laid<P::Real>,
    less: Seq<Laid<P::Real>>,
    x: Seq<P::Real>,
    y: Seq<P::Real>,
    x1: Seq<P::Real>,
    y1: Seq<P::Real>,
)
    requires
        ledger(p, give, take),
        more.wf(h, w),
        all_laid(less, h, w),
        x.len() == h * w,
        merged(exactly(give), w, more, x, y),
        merged_all(minus_step(p), w, less, x, x1),
        merged_all(minus_step(p), w, less, y, y1),
    ensures
        x1.len() == x.len(),
        merged(exactly(give), w, more, x1, y1),
    decreases less.len(),
{
    if less.len() == 0 {
        lemma_merged_all_none(minus_step(p), w, less, x, x1);
        lemma_merged_all_none(minus_step(p), w, less, y, y1);
    } else {
        let (most, last) = (less.drop_last(), less.last());
        assert(most.push(last) =~= less);
        let x0 = lemma_merged_all_push(minus_step(p), w, most, last, x, x1);
        let y0 = lemma_merged_all_push(minus_step(p), w, most, last, y, y1);
        assert(all_laid(most, h, w) && last.wf(h, w));
        lemma_merges_all_commute(p, give, take, h, w, more, most, x, y, x0, y0);
        lemma_merged_weaker(minus_step(p), exactly(take), w, last, x0, x1);
        lemma_merged_weaker(minus_step(p), exactly(take), w, last, y0, y1);
        lemma_merges_commute(give, take, h, w, more, last, x0, y0, x1, y1);
    }
}

/// Taking off `less` and `more`, of which `more` was added last, comes to
/// taking `less` off what was there before.
proof fn lemma_charge_taken_back<P: Physics>(
    p: P,
    give: spec_fn(P::Real, P::Real) -> P::Real,
    take: spec_fn(P::Real, P::Real) -> P::Real,
    h: int,
    w: int,
    more: Laid<P::Real>,
    less: Seq<Laid<P::Real>>,
    x: Seq<P::Real>,
    y: Seq<P::Real>,
    x1: Seq<P::Real>,
    y1: Seq<P::Real>,
)
    requires
        ledger(p, give, take),
        more.wf(h, w),
        all_laid(less, h, w),
        x.len() == h * w,
        merged(exactly(give), w, more, x, y),
        merged_all(minus_step(p), w, less, x, x1),
        merged_all(minus_step(p), w, less.push(more), y, y1),
    ensures
        y1 == x1,
{
    let y0 = lemma_merged_all_push(minus_step(p), w, less, more, y, y1);
    lemma_merged_weaker(minus_step(p), exactly(take), w, more, y0, y1);
    lemma_merges_all_commute(p, give, take, h, w, more, less, x, y, x1, y0);
    assert forall|a: P::Real, b: P::Real, r: P::Real, t: P::Real| #[trigger]
        exactly(give)(a, b, r) && #[trigger] exactly(take)(r, b, t) implies t == a by {
        assert(take(give(a, b), b) == a);
    }
    law_merge_is_undone(exactly(give), exactly(take), h, w, more, x1, y0, y1);
}

/// The patch marks lattice cell `c`.
pub open spec fn marked(laid: Laid<bool>, w: int, c: int) -> bool {
    exists|i: int, j: int| #[trigger] laid.has(i, j) && laid.under(w, i, j) == c && laid.at(i, j)
}

/// What a patch holds over a cell that it covers decides whether it marks it.
pub proof fn lemma_marked(laid: Laid<bool>, h: int, w: int, i: int, j: int)
    requires
        laid.wf(h, w),
        laid.has(i, j),
    ensures
        marked(laid, w, laid.under(w, i, j)) == laid.at(i, j),
{
    let c = laid.under(w, i, j);
    if marked(laid, w, c) {
        let (k, l) = choose|k: int, l: int| #[trigger] laid.has(k, l) && laid.under(w, k, l) == c && laid.at(k, l);
        lemma_under_distinct(laid, h, w, i, j, k, l);
    }
}

/// Clearing or closing the cells that a patch marks, cell by cell.
proof fn lemma_flags_merged(h: int, w: int, laid: Laid<bool>, x: Seq<bool>, y: Seq<bool>)
    requires
        laid.wf(h, w),
        x.len() == h * w,
    ensures
        merged(or_step(), w, laid, x, y) ==> forall|c: int|
            0 <= c < x.len() ==> #[trigger] y[c] == (x[c] || marked(laid, w, c)),
        merged(clear_step(), w, laid, x, y) ==> forall|c: int|
            0 <= c < x.len() ==> #[trigger] y[c] == (x[c] && !marked(laid, w, c)),
{
    assert forall|c: int| 0 <= c < x.len() implies {
        &&& merged(or_step(), w, laid, x, y) ==> #[trigger] y[c] == (x[c] || marked(laid, w, c))
        &&& merged(clear_step(), w, laid, x, y) ==> y[c] == (x[c] && !marked(laid, w, c))
    } by {
        if laid.covers(w, c) {
            let (i, j) = choose|i: int, j: int| #[trigger] laid.has(i, j) && laid.under(w, i, j) == c;
            lemma_marked(laid, h, w, i, j);
            if merged(or_step(), w, laid, x, y) {
                assert(or_step()(x[c], laid.at(i, j), y[c]));
            }
            if merged(clear_step(), w, laid, x, y) {
                assert(clear_step()(x[c], laid.at(i, j), y[c]));
            }
        } else {
            assert(!marked(laid, w, c));
        }
    }
}

/// `y` is `x` but for cells that `on` names, which are set in `y` and not in
/// `x`.
pub open spec fn differs_on(x: Seq<bool>, y: Seq<bool>, on: spec_fn(int) -> bool) -> bool {
    &&& y.len() == x.len()
    &&& forall|c: int| 0 <= c < x.len() ==> #[trigger] x[c] == (y[c] && !on(c))
}

/// Clearing marks on both of two layers keeps them apart in the same cells.
proof fn lemma_clearing_keeps_apart(
    h: int,
    w: int,
    patches: Seq<Laid<bool>>,
    on: spec_fn(int) -> bool,
    x: Seq<bool>,
    y: Seq<bool>,
    x1: Seq<bool>,
    y1: Seq<bool>,
)
    requires
        all_laid(patches, h, w),
        x.len() == h * w,
        differs_on(x, y, on),
        merged_all(clear_step(), w, patches, x, x1),
        merged_all(clear_step(), w, patches, y, y1),
    ensures
        x1.len() == x.len(),
        differs_on(x1, y1, on),
    decreases patches.len(),
{
    if patches.len() == 0 {
        lemma_merged_all_none(clear_step(), w, patches, x, x1);
        lemma_merged_all_none(clear_step(), w, patches, y, y1);
    } else {
        let (most, last) = (patches.drop_last(), patches.last());
        assert(most.push(last) =~= patches);
        let x0 = lemma_merged_all_push(clear_step(), w, most, last, x, x1);
        let y0 = lemma_merged_all_push(clear_step(), w, most, last, y, y1);
        assert(all_laid(most, h, w) && last.wf(h, w));
        lemma_clearing_keeps_apart(h, w, most, on, x, y, x0, y0);
        lemma_flags_merged(h, w, last, x0, x1);
        lemma_flags_merged(h, w, last, y0, y1);
        assert forall|c: int| 0 <= c < x1.len() implies #[trigger] x1[c] == (y1[c] && !on(c)) by {
            assert(x0[c] == (y0[c] && !on(c)));
        }
    }
}

/// A patch without a mark marks nothing.
proof fn lemma_no_marks(laid: Laid<bool>, h: int, w: int, c: int)
    requires
        laid.wf(h, w),
        count_lit(laid.cells@) == 0,
    ensures
        !marked(laid, w, c),
{
    if marked(laid, w, c) {
        let (i, j) = choose|i: int, j: int| #[trigger] laid.has(i, j) && laid.under(w, i, j) == c && laid.at(i, j);
        lemma_flat_bound(laid.rows@.len() as int, laid.cols@.len() as int, i, j);
        lemma_some_lit(laid.cells@, flat(laid.cols@.len() as int, i, j));
    }
}

proof fn lemma_some_lit(cells: Seq<bool>, i: int)
    requires
        0 <= i < cells.len(),
        cells[i],
    ensures
        count_lit(cells) > 0,
    decreases cells.len(),
{
    if i < cells.len() - 1 {
        lemma_some_lit(cells.drop_last(), i);
    }
}

/// Opening again what a stroke closed, on top of `less`, comes to opening
/// `less` before the stroke.
pub proof fn lemma_closed_taken_back<P: Physics>(
    p: P,
    s0: Sim<P::Real>,
    s1: Sim<P::Real>,
    pen: P::Real,
    cov: Laid<P::Real>,
    less: Seq<Laid<bool>>,
    bs: Seq<Laid<bool>>,
    count: int,
    x1: Seq<bool>,
    y1: Seq<bool>,
)
    requires
        s0.wf(),
        cov.wf(s0.params.h as int, s0.params.w as int),
        all_laid(less, s0.params.h as int, s0.params.w as int),
        closed(p, s0, s1, pen, cov, bs, count),
        merged_all(clear_step(), s0.params.w as int, less, s0.paint_blocked@, x1),
        merged_all(clear_step(), s0.params.w as int, less + bs, s1.paint_blocked@, y1),
    ensures
        y1 == x1,
{
    let (h, w) = (s0.params.h as int, s0.params.w as int);
    let (x, y) = (s0.paint_blocked@, s1.paint_blocked@);
    let (one, shuts) = choose|one: P::Real, shuts: bool| #[trigger]
        call_ensures(P::exceeds, (&p, one, pen), shuts) && call_ensures(P::one, (&p,), one) && if shuts {
            exists|newly: Laid<bool>| #[trigger] closed_by(p, s0, s1, pen, cov, bs, count, newly)
        } else {
            bs.len() == 0 && count == 0 && s1.paint_blocked@ == s0.paint_blocked@ && s1.blocked@ == s0.blocked@
        };
    if !shuts {
        assert(less + bs =~= less);
        let never = |c: int| false;
        lemma_clearing_keeps_apart(h, w, less, never, x, y, x1, y1);
        assert(y1 =~= x1);
    } else {
        let newly = choose|newly: Laid<bool>| #[trigger] closed_by(p, s0, s1, pen, cov, bs, count, newly);
        let on = |c: int| marked(newly, w, c);
        assert(newly.wf(h, w));
        lemma_flags_merged(h, w, newly, x, y);
        assert forall|c: int| 0 <= c < x.len() implies #[trigger] x[c] == (y[c] && !on(c)) by {
            assert(s0.blocked@[c] == (s0.line_blocked@[c] || s0.paint_blocked@[c]));
            if on(c) {
                let (i, j) = choose|i: int, j: int| #[trigger] newly.has(i, j) && newly.under(w, i, j) == c && newly.at(i, j);
                assert(!s0.blocked@[cov.under(w, i, j)]);
            }
        }
        if count > 0 {
            assert(less + bs =~= less.push(newly));
            let y0 = lemma_merged_all_push(clear_step(), w, less, newly, y, y1);
            lemma_clearing_keeps_apart(h, w, less, on, x, y, x1, y0);
            lemma_flags_merged(h, w, newly, y0, y1);
            assert forall|c: int| 0 <= c < x1.len() implies y1[c] == x1[c] by {
                assert(x1[c] == (y0[c] && !on(c)));
            }
            assert(y1 =~= x1);
        } else {
            assert(less + bs =~= less);
            lemma_clearing_keeps_apart(h, w, less, on, x, y, x1, y1);
            assert forall|c: int| 0 <= c < x1.len() implies y1[c] == x1[c] by {
                lemma_no_marks(newly, h, w, c);
                assert(x1[c] == (y1[c] && !on(c)));
            }
            assert(y1 =~= x1);
        }
    }
}

/// The same strokes lie on both, and cells are closed by the same lines, paint
/// and potential: what annealing may have done in between is all that differs.
pub open spec fn same_paint<R>(a: Sim<R>, b: Sim<R>) -> bool {
    &&& a.params.w == b.params.w
    &&& a.strokes == b.strokes
    &&& a.paint == b.paint
    &&& a.paint_blocked == b.paint_blocked
    &&& a.line_blocked == b.line_blocked
    &&& a.u_edge@ == b.u_edge@
    &&& a.blocked@.len() == b.blocked@.len()
}

/// Undo takes a stroke back that was just painted, whatever annealing did since:
/// the closed cells are those from before, and so, where what is added can be
/// taken off again, are the painted charge before noise is taken out of it and
/// the fixed potential. The records are those from before if the oldest did not
/// have to make room.
pub proof fn law_undo_takes_a_stroke_back<P: Physics>(
    p: P,
    give: spec_fn(P::Real, P::Real) -> P::Real,
    take: spec_fn(P::Real, P::Real) -> P::Real,
    s0: Sim<P::Real>,
    s1: Sim<P::Real>,
    patch: StrokePatch<P::Real>,
    brush: Brush<P::Real>,
    report: PaintReport<P::Real>,
    q: Laid<P::Real>,
    c: Laid<P::Real>,
    u: Laid<P::Real>,
    bs: Seq<Laid<bool>>,
    t1: Sim<P::Real>,
    t2: Sim<P::Real>,
    mid: Seq<P::Real>,
)
    requires
        s0.wf(),
        t1.wf(),
        laid_down_by(p, s0, s1, patch, brush, true, report, q, c, u, bs),
        same_paint(t1, s1),
        undone_by(p, t1, t2, mid),
    ensures
        t2.paint_blocked@ == s0.paint_blocked@,
        t2.blocked@ == s0.blocked@,
        ledger(p, give, take) ==> mid == s0.paint@,
        ledger(p, give, take) ==> t2.u_edge@ == s0.u_edge@,
        s0.strokes@.len() < STROKE_UNDO_CAP ==> records(t2.strokes@) == records(s0.strokes@),
{
    let (h, w) = (s0.params.h as int, s0.params.w as int);
    let base = opened(records(s0.strokes@), true);
    let last = records(t1.strokes@).last();
    let rec = t1.strokes@.last();
    assert(rec.wf(h, w) && rec@ == last);
    assert(base.last().u =~= Seq::empty() && base.last().q =~= Seq::empty() && base.last().b =~= Seq::empty());
    assert(last.u =~= seq![u] && last.q =~= seq![q] && last.b =~= bs);
    lemma_placed_wf(patch.dq@, patch.y0 as int, patch.x0 as int, patch.ph as int, patch.pw as int, h, w, s0.params.periodic, q);
    lemma_placed_wf(patch.cov@, patch.y0 as int, patch.x0 as int, patch.ph as int, patch.pw as int, h, w, s0.params.periodic, c);
    let (nu, nb) = (Seq::<Laid<P::Real>>::empty(), Seq::<Laid<bool>>::empty());
    lemma_folded_empty::<Seq<P::Real>, Laid<P::Real>>(merging(minus_step(p), w), s0.paint@);
    lemma_folded_empty::<Seq<P::Real>, Laid<P::Real>>(merging(minus_step(p), w), s0.u_edge@);
    lemma_folded_empty::<Seq<bool>, Laid<bool>>(merging(clear_step(), w), s0.paint_blocked@);
    assert(nb + bs =~= bs);
    lemma_closed_taken_back(
        p,
        s0,
        s1,
        brush.penetrability,
        c,
        nb,
        bs,
        report.blocked_new as int,
        s0.paint_blocked@,
        t2.paint_blocked@,
    );
    assert(t2.blocked@ =~= s0.blocked@) by {
        assert forall|i: int| 0 <= i < s0.blocked@.len() implies t2.blocked@[i] == s0.blocked@[i] by {
            assert(s0.blocked@[i] == (s0.line_blocked@[i] || s0.paint_blocked@[i]));
        }
    }
    if ledger(p, give, take) {
        assert(nu.push(q) =~= seq![q] && nu.push(u) =~= seq![u]);
        lemma_merged_weaker(plus_step(p), exactly(give), w, q, s0.paint@, s1.paint@);
        lemma_charge_taken_back(p, give, take, h, w, q, nu, s0.paint@, s1.paint@, s0.paint@, mid);
        lemma_repotentialed_by_change(p, give, take, s0, s1, patch, brush, u, report.de_field);
        assert(u == rec.u_patches@[0]);
        lemma_charge_taken_back(p, give, take, h, w, u, nu, s0.u_edge@, s1.u_edge@, s0.u_edge@, t2.u_edge@);
    }
    if s0.strokes@.len() < STROKE_UNDO_CAP {
        assert(records(t2.strokes@) =~= records(s0.strokes@));
    }
}

/// What a stroke changed the potential by leads from the one to the other.
proof fn lemma_repotentialed_by_change<P: Physics>(
    p: P,
    give: spec_fn(P::Real, P::Real) -> P::Real,
    take: spec_fn(P::Real, P::Real) -> P::Real,
    s0: Sim<P::Real>,
    s1: Sim<P::Real>,
    patch: StrokePatch<P::Real>,
    brush: Brush<P::Real>,
    u: Laid<P::Real>,
    de: P::Real,
)
    requires
        ledger(p, give, take),
        s0.wf(),
        s1.u_edge@.len() == s0.u_edge@.len(),
        repotentialed(p, s0, s1, patch, brush, u, de),
    ensures
        merged(exactly(give), s0.params.w as int, u, s0.u_edge@, s1.u_edge@),
{
    let (h, w) = (s0.params.h as int, s0.params.w as int);
    let (x, y) = (s0.u_edge@, s1.u_edge@);
    let (rp, table, du) = choose|rp: usize, table: Seq<P::Real>, du: Seq<P::Real>| #[trigger]
        repotentialed_by(p, s0, s1, patch, brush, u, de, rp, table, du);
    if hits_wide(s0, patch, rp as int) {
        lemma_merged_weaker(plus_step(p), exactly(give), w, u, x, y);
    } else {
        assert forall|i: int, j: int| #[trigger] u.has(i, j) implies exactly(give)(
            x[u.under(w, i, j)],
            u.at(i, j),
            y[u.under(w, i, j)],
        ) by {
            let c = flat(w, i, j);
            lemma_flat_bound(h, w, i, j);
            assert(u.under(w, i, j) == c && u.at(i, j) == u.cells@[c]);
            assert(give(x[c], take(y[c], x[c])) == y[c]);
        }
        assert forall|c: int| 0 <= c < x.len() && !u.covers(w, c) implies #[trigger] y[c] == x[c] by {
            lemma_flat_inverse(h, w, c);
            assert(u.has(c / w, c % w) && u.under(w, c / w, c % w) == c);
        }
    }
}

/// Undo takes back all parts of a stroke: if a part was added to the current
/// stroke, undo comes to what it would have come to before. That holds of the
/// closed cells and, where what is added can be taken off again, of the painted
/// charge before noise is taken out of it and of the fixed potential.
pub proof fn law_undo_takes_every_part_back<P: Physics>(
    p: P,
    give: spec_fn(P::Real, P::Real) -> P::Real,
    take: spec_fn(P::Real, P::Real) -> P::Real,
    s0: Sim<P::Real>,
    a: Sim<P::Real>,
    mid_a: Seq<P::Real>,
    s1: Sim<P::Real>,
    patch: StrokePatch<P::Real>,
    brush: Brush<P::Real>,
    report: PaintReport<P::Real>,
    q: Laid<P::Real>,
    c: Laid<P::Real>,
    u: Laid<P::Real>,
    bs: Seq<Laid<bool>>,
    t1: Sim<P::Real>,
    b: Sim<P::Real>,
    mid_b: Seq<P::Real>,
)
    requires
        s0.wf(),
        t1.wf(),
        undone_by(p, s0, a, mid_a),
        laid_down_by(p, s0, s1, patch, brush, false, report, q, c, u, bs),
        same_paint(t1, s1),
        undone_by(p, t1, b, mid_b),
    ensures
        b.paint_blocked@ == a.paint_blocked@,
        b.blocked@ == a.blocked@,
        ledger(p, give, take) ==> mid_b == mid_a,
        ledger(p, give, take) ==> b.u_edge@ == a.u_edge@,
        records(b.strokes@) == records(a.strokes@),
{
    let (h, w) = (s0.params.h as int, s0.params.w as int);
    let base = records(s0.strokes@);
    let rec = s0.strokes@.last();
    let last = records(t1.strokes@).last();
    assert(rec@ == base.last() && rec.wf(h, w));
    assert(t1.strokes@.last()@ == last && t1.strokes@.last().wf(h, w));
    assert(last.u =~= base.last().u.push(u) && last.q =~= base.last().q.push(q) && last.b =~= base.last().b + bs);
    lemma_placed_wf(patch.dq@, patch.y0 as int, patch.x0 as int, patch.ph as int, patch.pw as int, h, w, s0.params.periodic, q);
    lemma_placed_wf(patch.cov@, patch.y0 as int, patch.x0 as int, patch.ph as int, patch.pw as int, h, w, s0.params.periodic, c);
    lemma_closed_taken_back(
        p,
        s0,
        s1,
        brush.penetrability,
        c,
        base.last().b,
        bs,
        report.blocked_new as int,
        a.paint_blocked@,
        b.paint_blocked@,
    );
    assert(b.blocked@ =~= a.blocked@);
    if ledger(p, give, take) {
        lemma_merged_weaker(plus_step(p), exactly(give), w, q, s0.paint@, s1.paint@);
        lemma_charge_taken_back(p, give, take, h, w, q, base.last().q, s0.paint@, s1.paint@, mid_a, mid_b);
        lemma_repotentialed_by_change(p, give, take, s0, s1, patch, brush, u, report.de_field);
        assert(u == t1.strokes@.last().u_patches@[base.last().u.len() as int]);
        lemma_charge_taken_back(p, give, take, h, w, u, base.last().u, s0.u_edge@, s1.u_edge@, a.u_edge@, b.u_edge@);
    }
    assert(records(b.strokes@) =~= records(a.strokes@));
}

/// Annealing between a stroke and its undo leaves paint, records and fixed
/// potential alone.
pub proof fn law_annealing_leaves_paint<P: Physics>(p: P, s1: Sim<P::Real>, n: nat, t1: Sim<P::Real>)
    requires
        t1.same_scene(s1),
        ran(p, s1@, n, t1@),
        s1.iteration + n <= u64::MAX,
    ensures
        same_paint(t1, s1),
{
    law_annealing_counts_iterations(p, s1@, n, t1@);
}

} // verus!

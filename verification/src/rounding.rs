//! What rounding leaves of a stroke that is taken back.

use crate::fold::partials;
use crate::formulas::magnitude;
use crate::lattice::{flat, lemma_flat_bound, lemma_flat_inverse};
use crate::paint::{hits_wide, laid_down_by, opened, records, repotentialed_by};
use crate::patch::{merged, Laid};
use crate::physics::{plus_step, Brush, PaintReport, Physics};
use crate::sim::Sim;
use crate::stroke::StrokePatch;
use crate::undo::{merged_all, merging, minus_step, same_paint, undone_by};
use vstd::prelude::*;

verus! {

/// Sums and differences are off by at most the share `eps` of themselves.
pub open spec fn rounds_within<P: Physics>(p: P, val: spec_fn(P::Real) -> real, eps: real) -> bool {
    &&& eps >= 0 as real
    &&& forall|a: P::Real, b: P::Real, r: P::Real| #[trigger]
        call_ensures(P::plus, (&p, a, b), r) ==> magnitude(val(r) - (val(a) + val(b))) <= eps * magnitude(val(a) + val(b))
    &&& forall|a: P::Real, b: P::Real, r: P::Real| #[trigger]
        call_ensures(P::minus, (&p, a, b), r) ==> magnitude(val(r) - (val(a) - val(b))) <= eps * magnitude(val(a) - val(b))
}

/// How far rounding twice, once of `x` and once of about `v`, can lead astray.
pub open spec fn slack(eps: real, x: real, v: real) -> real {
    eps * magnitude(x) + eps * (magnitude(v) + eps * magnitude(x))
}

/// A step off by at most `e` and a step back off by its share.
proof fn lemma_there_and_back(eps: real, e: real, v: real, near: real, back: real)
    requires
        eps >= 0 as real,
        magnitude(near - v) <= e,
        magnitude(back - near) <= eps * magnitude(near),
    ensures
        magnitude(back - v) <= e + eps * (magnitude(v) + e),
{
    let (m, most) = (magnitude(near), magnitude(v) + e);
    assert(m <= most);
    assert(eps * m <= eps * most) by (nonlinear_arith)
        requires
            eps >= 0 as real,
            m <= most,
    ;
}

/// A merge of one patch.
proof fn lemma_one_merge<T, U>(step: spec_fn(T, U, T) -> bool, w: int, laid: Laid<U>, before: Seq<T>, after: Seq<T>)
    requires
        merged_all(step, w, seq![laid], before, after),
    ensures
        merged(step, w, laid, before, after),
{
    let trace = choose|trace: Seq<Seq<T>>| #[trigger]
        partials(merging(step, w), before, seq![laid], trace) && trace.last() == after;
    assert(seq![laid][0] == laid);
    assert(merging(step, w)(trace[0], seq![laid][0], trace[1]));
}

/// Undo takes a stroke of one part back up to rounding, whatever annealing did
/// since. In a cell that the stroke changed, the painted charge, before noise is
/// taken out of it, and the potential are off by no more than rounding of the
/// step there and the step back; the other cells are what they were.
pub proof fn law_undo_is_off_by_rounding_alone<P: Physics>(
    p: P,
    val: spec_fn(P::Real) -> real,
    eps: real,
    s0: Sim<P::Real>,
    s1: Sim<P::Real>,
    patch: StrokePatch<P::Real>,
    brush: Brush<P::Real>,
    report: PaintReport<P::Real>,
    q: Laid<P::Real>,
    c: Laid<P::Real>,
    u: Laid<P::Real>,
    bs: Seq<Laid<bool>>,
    t1: Sim<P::Real>,
    t2: Sim<P::Real>,
    mid: Seq<P::Real>,
)
    requires
        rounds_within(p, val, eps),
        s0.wf(),
        laid_down_by(p, s0, s1, patch, brush, true, report, q, c, u, bs),
        same_paint(t1, s1),
        undone_by(p, t1, t2, mid),
    ensures
        forall|i: int, j: int| #[trigger]
            q.has(i, j) ==> {
                let k = q.under(s0.params.w as int, i, j);
                let v = val(s0.paint@[k]);
                magnitude(val(mid[k]) - v) <= slack(eps, v + val(q.at(i, j)), v)
            },
        forall|k: int| 0 <= k < s0.paint@.len() && !q.covers(s0.params.w as int, k) ==> #[trigger] mid[k] == s0.paint@[k],
        forall|i: int, j: int| #[trigger]
            u.has(i, j) ==> {
                let k = u.under(s0.params.w as int, i, j);
                let v = val(s0.u_edge@[k]);
                ||| magnitude(val(t2.u_edge@[k]) - v) <= slack(eps, v + val(u.at(i, j)), v)
                ||| magnitude(val(t2.u_edge@[k]) - v) <= slack(eps, val(s1.u_edge@[k]) - v, v)
            },
        forall|k: int|
            0 <= k < s0.u_edge@.len() && !u.covers(s0.params.w as int, k) ==> #[trigger] t2.u_edge@[k] == s0.u_edge@[k],
{
    let (h, w) = (s0.params.h as int, s0.params.w as int);
    let base = opened(records(s0.strokes@), true);
    let last = records(t1.strokes@).last();
    assert(base.last().u =~= Seq::empty() && base.last().q =~= Seq::empty());
    assert(last.u =~= seq![u] && last.q =~= seq![q]);
    lemma_one_merge(minus_step(p), w, q, s1.paint@, mid);
    lemma_one_merge(minus_step(p), w, u, s1.u_edge@, t2.u_edge@);
    assert forall|i: int, j: int| #[trigger] q.has(i, j) implies ({
        let k = q.under(w, i, j);
        let v = val(s0.paint@[k]);
        magnitude(val(mid[k]) - v) <= slack(eps, v + val(q.at(i, j)), v)
    }) by {
        let k = q.under(w, i, j);
        assert(plus_step(p)(s0.paint@[k], q.at(i, j), s1.paint@[k]));
        assert(minus_step(p)(s1.paint@[k], q.at(i, j), mid[k]));
        let (v, d) = (val(s0.paint@[k]), val(q.at(i, j)));
        lemma_there_and_back(eps, eps * magnitude(v + d), v, val(s1.paint@[k]) - d, val(mid[k]));
    }
    let (rp, table, du) = choose|rp: usize, table: Seq<P::Real>, du: Seq<P::Real>| #[trigger]
        repotentialed_by(p, s0, s1, patch, brush, u, report.de_field, rp, table, du);
    assert forall|i: int, j: int| #[trigger] u.has(i, j) implies ({
        let k = u.under(w, i, j);
        let v = val(s0.u_edge@[k]);
        ||| magnitude(val(t2.u_edge@[k]) - v) <= slack(eps, v + val(u.at(i, j)), v)
        ||| magnitude(val(t2.u_edge@[k]) - v) <= slack(eps, val(s1.u_edge@[k]) - v, v)
    }) by {
        let k = u.under(w, i, j);
        assert(minus_step(p)(s1.u_edge@[k], u.at(i, j), t2.u_edge@[k]));
        let (v, d, now) = (val(s0.u_edge@[k]), val(u.at(i, j)), val(s1.u_edge@[k]));
        if hits_wide(s0, patch, rp as int) {
            assert(plus_step(p)(s0.u_edge@[k], u.at(i, j), s1.u_edge@[k]));
            lemma_there_and_back(eps, eps * magnitude(v + d), v, now - d, val(t2.u_edge@[k]));
        } else {
            lemma_flat_bound(h, w, i, j);
            assert(k == flat(w, i, j) && u.at(i, j) == u.cells@[k]);
            assert(call_ensures(P::minus, (&p, s1.u_edge@[k], s0.u_edge@[k]), u.cells@[k]));
            lemma_there_and_back(eps, eps * magnitude(now - v), v, now - d, val(t2.u_edge@[k]));
        }
    }
    assert forall|k: int| 0 <= k < s0.u_edge@.len() && !u.covers(w, k) implies #[trigger] t2.u_edge@[k] == s0.u_edge@[k] by {
        if !hits_wide(s0, patch, rp as int) {
            lemma_flat_inverse(h, w, k);
            assert(u.has(k / w, k % w) && u.under(w, k / w, k % w) == k);
        }
        assert(s1.u_edge@[k] == s0.u_edge@[k]);
    }
}

} // verus!

//! A gas can be set up again, and what follows run again.

use crate::anneal::{law_annealing_can_be_repeated, law_runs_join, lemma_sum_settled, ran, settled};
use crate::convolve::{padded, spread, spread_by};
use crate::formulas::{lemma_potential_settled, total_by};
use crate::kernel::{by_potential, radial, ring, side};
use crate::lattice::{flat, lemma_flat_bound, lemma_flat_inverse};
use crate::physics::{summed, Params, Physics};
use crate::scene::{dotted, evenly_lit, set_up, set_up_blank, totals, totals_by};
use crate::sim::{Gas, Layout, Sim};
use crate::spectrum::{backward, column, columns_turned, convolved, forward, pointwise, row, rows_turned, turned};
use vstd::prelude::*;

verus! {

/// Every operation that setting up a gas and annealing it call on has one
/// outcome.
pub open spec fn all_settled<P: Physics>(p: P) -> bool {
    &&& settled(p)
    &&& forall|r: P::Real, s: P::Real| #[trigger]
        call_ensures(P::one, (&p,), r) && #[trigger] call_ensures(P::one, (&p,), s) ==> r == s
    &&& forall|r: P::Real, s: P::Real| #[trigger]
        call_ensures(P::half, (&p,), r) && #[trigger] call_ensures(P::half, (&p,), s) ==> r == s
    &&& forall|v: P::Real, r: i64, s: i64| #[trigger]
        call_ensures(P::ceil, (&p, v), r) && #[trigger] call_ensures(P::ceil, (&p, v), s) ==> r == s
    &&& forall|v: P::Real, r: P::Wave, s: P::Wave| #[trigger]
        call_ensures(P::lift, (&p, v), r) && #[trigger] call_ensures(P::lift, (&p, v), s) ==> r == s
    &&& forall|a: P::Wave, b: P::Wave, r: P::Wave, s: P::Wave| #[trigger]
        call_ensures(P::product, (&p, a, b), r) && #[trigger] call_ensures(P::product, (&p, a, b), s) ==> r == s
    &&& forall|v: P::Wave, n: usize, r: P::Real, s: P::Real| #[trigger]
        call_ensures(P::settle, (&p, v, n), r) && #[trigger] call_ensures(P::settle, (&p, v, n), s) ==> r == s
    &&& forall|inverse: bool, line: Seq<P::Wave>, r: Seq<P::Wave>, s: Seq<P::Wave>| #[trigger]
        turned(p, inverse, line, r) && #[trigger] turned(p, inverse, line, s) ==> r == s
}

proof fn lemma_rows_settled<P: Physics>(p: P, inverse: bool, h: int, w: int, before: Seq<P::Wave>, r: Seq<P::Wave>, s: Seq<P::Wave>)
    requires
        all_settled(p),
        w >= 0,
        rows_turned(p, inverse, h, w, before, r),
        rows_turned(p, inverse, h, w, before, s),
    ensures
        r == s,
{
    assert forall|c: int| 0 <= c < r.len() implies r[c] == s[c] by {
        lemma_flat_inverse(h, w, c);
        let (y, x) = (c / w, c % w);
        lemma_flat_bound(h, w, y, x);
        assert(turned(p, inverse, row(before, w, y), row(r, w, y)));
        assert(turned(p, inverse, row(before, w, y), row(s, w, y)));
        assert(row(r, w, y)[x] == r[c] && row(s, w, y)[x] == s[c]);
    }
    assert(r =~= s);
}

proof fn lemma_columns_settled<P: Physics>(p: P, inverse: bool, h: int, w: int, before: Seq<P::Wave>, r: Seq<P::Wave>, s: Seq<P::Wave>)
    requires
        all_settled(p),
        w >= 0,
        columns_turned(p, inverse, h, w, before, r),
        columns_turned(p, inverse, h, w, before, s),
    ensures
        r == s,
{
    assert forall|c: int| 0 <= c < r.len() implies r[c] == s[c] by {
        lemma_flat_inverse(h, w, c);
        let (y, x) = (c / w, c % w);
        assert(turned(p, inverse, column(before, h, w, x), column(r, h, w, x)));
        assert(turned(p, inverse, column(before, h, w, x), column(s, h, w, x)));
        assert(column(r, h, w, x)[y] == r[c] && column(s, h, w, x)[y] == s[c]);
    }
    assert(r =~= s);
}

proof fn lemma_forward_settled<P: Physics>(p: P, h: int, w: int, field: Seq<P::Real>, r: Seq<P::Wave>, s: Seq<P::Wave>)
    requires
        all_settled(p),
        w >= 0,
        forward(p, h, w, field, r),
        forward(p, h, w, field, s),
    ensures
        r == s,
{
    let (l1, m1) = choose|lifted: Seq<P::Wave>, mid: Seq<P::Wave>| #[trigger]
        rows_turned(p, false, h, w, lifted, mid) && lifted.len() == field.len() && (forall|i: int|
            0 <= i < field.len() ==> call_ensures(P::lift, (&p, field[i]), #[trigger] lifted[i])) && columns_turned(
            p,
            false,
            h,
            w,
            mid,
            r,
        );
    let (l2, m2) = choose|lifted: Seq<P::Wave>, mid: Seq<P::Wave>| #[trigger]
        rows_turned(p, false, h, w, lifted, mid) && lifted.len() == field.len() && (forall|i: int|
            0 <= i < field.len() ==> call_ensures(P::lift, (&p, field[i]), #[trigger] lifted[i])) && columns_turned(
            p,
            false,
            h,
            w,
            mid,
            s,
        );
    assert forall|i: int| 0 <= i < l1.len() implies l1[i] == l2[i] by {
        assert(call_ensures(P::lift, (&p, field[i]), l1[i]) && call_ensures(P::lift, (&p, field[i]), l2[i]));
    }
    assert(l1 =~= l2);
    lemma_rows_settled(p, false, h, w, l1, m1, m2);
    lemma_columns_settled(p, false, h, w, m1, r, s);
}

proof fn lemma_convolved_settled<P: Physics>(
    p: P,
    h: int,
    w: int,
    a: Seq<P::Real>,
    b: Seq<P::Real>,
    r: Seq<P::Real>,
    s: Seq<P::Real>,
)
    requires
        all_settled(p),
        w >= 0,
        convolved(p, h, w, a, b, r),
        convolved(p, h, w, a, b, s),
    ensures
        r == s,
{
    let (a1, b1, c1) = choose|fa: Seq<P::Wave>, fb: Seq<P::Wave>, ab: Seq<P::Wave>|
        forward(p, h, w, a, fa) && forward(p, h, w, b, fb) && #[trigger] pointwise(p, fa, fb, ab) && backward(p, h, w, ab, r);
    let (a2, b2, c2) = choose|fa: Seq<P::Wave>, fb: Seq<P::Wave>, ab: Seq<P::Wave>|
        forward(p, h, w, a, fa) && forward(p, h, w, b, fb) && #[trigger] pointwise(p, fa, fb, ab) && backward(p, h, w, ab, s);
    lemma_forward_settled(p, h, w, a, a1, a2);
    lemma_forward_settled(p, h, w, b, b1, b2);
    assert forall|i: int| 0 <= i < c1.len() implies c1[i] == c2[i] by {
        assert(call_ensures(P::product, (&p, a1[i], b1[i]), c1[i]) && call_ensures(P::product, (&p, a1[i], b1[i]), c2[i]));
    }
    assert(c1 =~= c2);
    let (m1, l1) = choose|mid: Seq<P::Wave>, last: Seq<P::Wave>| #[trigger]
        rows_turned(p, true, h, w, mid, last) && columns_turned(p, true, h, w, c1, mid) && r.len() == last.len() && (forall|i: int|
            0 <= i < last.len() ==> call_ensures(P::settle, (&p, last[i], (h * w) as usize), #[trigger] r[i]));
    let (m2, l2) = choose|mid: Seq<P::Wave>, last: Seq<P::Wave>| #[trigger]
        rows_turned(p, true, h, w, mid, last) && columns_turned(p, true, h, w, c1, mid) && s.len() == last.len() && (forall|i: int|
            0 <= i < last.len() ==> call_ensures(P::settle, (&p, last[i], (h * w) as usize), #[trigger] s[i]));
    lemma_columns_settled(p, true, h, w, c1, m1, m2);
    lemma_rows_settled(p, true, h, w, m1, l1, l2);
    assert forall|i: int| 0 <= i < r.len() implies r[i] == s[i] by {
        let n = (h * w) as usize;
        assert(call_ensures(P::settle, (&p, l1[i], n), r[i]) && call_ensures(P::settle, (&p, l1[i], n), s[i]));
    }
    assert(r =~= s);
}

/// A convolution on the lattice has then one outcome.
pub proof fn lemma_spread_settled<P: Physics>(
    p: P,
    field: Seq<P::Real>,
    h: int,
    w: int,
    table: Seq<P::Real>,
    rc: int,
    periodic: bool,
    r: Seq<P::Real>,
    s: Seq<P::Real>,
)
    requires
        all_settled(p),
        w >= 0,
        padded(w, rc, periodic) >= 0,
        spread(p, field, h, w, table, rc, periodic, r),
        spread(p, field, h, w, table, rc, periodic, s),
    ensures
        r == s,
{
    let (z1, s1, k1, f1) = choose|z: P::Real, src: Seq<P::Real>, ker: Seq<P::Real>, full: Seq<P::Real>| #[trigger]
        spread_by(p, field, h, w, table, rc, periodic, r, z, src, ker, full);
    let (z2, s2, k2, f2) = choose|z: P::Real, src: Seq<P::Real>, ker: Seq<P::Real>, full: Seq<P::Real>| #[trigger]
        spread_by(p, field, h, w, table, rc, periodic, s, z, src, ker, full);
    let (fh, fw) = (padded(h, rc, periodic), padded(w, rc, periodic));
    assert(z1 == z2);
    assert forall|c: int| 0 <= c < fh * fw implies s1[c] == s2[c] && k1[c] == k2[c] by {
        lemma_flat_inverse(fh, fw, c);
        let (y, x) = (c / fw, c % fw);
        assert(s1[flat(fw, y, x)] == s2[flat(fw, y, x)]);
        assert(k1[flat(fw, y, x)] == k2[flat(fw, y, x)]);
    }
    assert(s1 =~= s2);
    assert(k1 =~= k2);
    lemma_convolved_settled(p, fh, fw, s1, k1, f1, f2);
    assert forall|c: int| 0 <= c < r.len() implies r[c] == s[c] by {
        lemma_flat_inverse(h, w, c);
        let (y, x) = (c / w, c % w);
        assert(r[flat(w, y, x)] == s[flat(w, y, x)]);
    }
    assert(r =~= s);
}

/// So has a sum of products.
pub proof fn lemma_dotted_settled<P: Physics>(p: P, a: Seq<P::Real>, b: Seq<P::Real>, r: P::Real, s: P::Real)
    requires
        all_settled(p),
        dotted(p, a, b, r),
        dotted(p, a, b, s),
    ensures
        r == s,
{
    let c1 = choose|parts: Seq<P::Real>| #[trigger]
        summed(p, parts, r) && parts.len() == a.len() && (forall|i: int|
            0 <= i < a.len() ==> call_ensures(P::times, (&p, a[i], b[i]), #[trigger] parts[i]));
    let c2 = choose|parts: Seq<P::Real>| #[trigger]
        summed(p, parts, s) && parts.len() == a.len() && (forall|i: int|
            0 <= i < a.len() ==> call_ensures(P::times, (&p, a[i], b[i]), #[trigger] parts[i]));
    assert forall|i: int| 0 <= i < c1.len() implies c1[i] == c2[i] by {
        assert(call_ensures(P::times, (&p, a[i], b[i]), c1[i]) && call_ensures(P::times, (&p, a[i], b[i]), c2[i]));
    }
    assert(c1 =~= c2);
    lemma_sum_settled(p, c1, r, s);
}

proof fn lemma_totals_settled<P: Physics>(p: P, lay: Layout<P::Real>, r: P::Real, s: P::Real)
    requires
        all_settled(p),
        padded(lay.params.w as int, lay.rc as int, lay.params.periodic) >= 0,
        totals(p, lay, r),
        totals(p, lay, s),
    ensures
        r == s,
{
    let (f1, c1, m1, e1) = choose|field: Seq<P::Real>, conv: Seq<P::Real>, e_mm: P::Real, e_edge: P::Real| #[trigger]
        totals_by(p, lay, r, field, conv, e_mm, e_edge);
    let (f2, c2, m2, e2) = choose|field: Seq<P::Real>, conv: Seq<P::Real>, e_mm: P::Real, e_edge: P::Real| #[trigger]
        totals_by(p, lay, s, field, conv, e_mm, e_edge);
    assert forall|i: int| 0 <= i < f1.len() implies f1[i] == f2[i] by {
        assert(if lay.occ[i] {
            call_ensures(P::one, (&p,), f1[i]) && call_ensures(P::one, (&p,), f2[i])
        } else {
            call_ensures(P::zero, (&p,), f1[i]) && call_ensures(P::zero, (&p,), f2[i])
        });
    }
    assert(f1 =~= f2);
    lemma_spread_settled(
        p,
        f1,
        lay.params.h as int,
        lay.params.w as int,
        lay.kernel,
        lay.rc as int,
        lay.params.periodic,
        c1,
        c2,
    );
    lemma_dotted_settled(p, f1, c1, m1, m2);
    lemma_dotted_settled(p, f1, lay.u_edge, e1, e2);
    let (h1, p1, q1) = choose|half: P::Real, part: P::Real, square: P::Real| #[trigger]
        total_by(p, lay.params.charge, m1, e1, r, half, part, square);
    let (h2, p2, q2) = choose|half: P::Real, part: P::Real, square: P::Real| #[trigger]
        total_by(p, lay.params.charge, m1, e1, s, half, part, square);
    assert(h1 == h2 && p1 == p2 && q1 == q2);
}

proof fn lemma_tables_settled<P: Physics>(p: P, params: Params<P::Real>, attractive: bool, rc: int, r: Seq<P::Real>, s: Seq<P::Real>)
    requires
        all_settled(p),
        rc >= 0,
        radial(r, rc, by_potential(p, params, attractive)),
        radial(s, rc, by_potential(p, params, attractive)),
    ensures
        r == s,
{
    let n = side(rc);
    let holds = by_potential(p, params, attractive);
    assert forall|c: int| 0 <= c < r.len() implies r[c] == s[c] by {
        lemma_flat_inverse(n, n, c);
        let (i, j) = (c / n, c % n);
        let r2 = ring(rc, i, j);
        assert(holds(r2, r[flat(n, i, j)]) && holds(r2, s[flat(n, i, j)]));
        lemma_potential_settled(p, r2, params, attractive, r[c], s[c]);
    }
    assert(r =~= s);
}

/// A gas can be set up again: the same parameters, lines and cells give the
/// same gas.
pub proof fn law_a_gas_can_be_set_up_again<P: Physics>(
    p: P,
    params: Params<P::Real>,
    cov: Seq<P::Real>,
    occ0: Seq<bool>,
    line_density: P::Real,
    line_blocks: bool,
    one: Sim<P::Real>,
    two: Sim<P::Real>,
)
    requires
        all_settled(p),
        set_up(p, params, cov, occ0, line_density, line_blocks, one),
        set_up(p, params, cov, occ0, line_density, line_blocks, two),
        one.wf(),
        two.wf(),
    ensures
        one@ == two@,
{
    let n = params.h * params.w;
    let (h, w) = (params.h as int, params.w as int);
    assert(one.rc == two.rc);
    let rc = one.rc as int;
    assert forall|i: int| 0 <= i < n implies one.line_blocked@[i] == two.line_blocked@[i] && one.paint@[i] == two.paint@[i] by {
        assert(call_ensures(P::zero, (&p,), one.paint@[i]) && call_ensures(P::zero, (&p,), two.paint@[i]));
    }
    assert(one.line_blocked@ =~= two.line_blocked@);
    assert(one.paint@ =~= two.paint@);
    assert forall|i: int| 0 <= i < n implies one.occ@[i] == two.occ@[i] by {}
    assert(one.occ@ =~= two.occ@);
    lemma_tables_settled(p, params, true, rc, one.kernel@, two.kernel@);
    lemma_tables_settled(p, params, false, rc, one.kernel_edge@, two.kernel_edge@);
    let table = one.kernel_edge@;
    let e1 = choose|edge: Seq<P::Real>| #[trigger]
        spread(p, edge, h, w, table, rc, params.periodic, one.u_edge@) && edge.len() == cov.len() && (forall|i: int|
            0 <= i < cov.len() ==> call_ensures(P::times, (&p, cov[i], line_density), #[trigger] edge[i]));
    let e2 = choose|edge: Seq<P::Real>| #[trigger]
        spread(p, edge, h, w, table, rc, params.periodic, two.u_edge@) && edge.len() == cov.len() && (forall|i: int|
            0 <= i < cov.len() ==> call_ensures(P::times, (&p, cov[i], line_density), #[trigger] edge[i]));
    assert forall|i: int| 0 <= i < e1.len() implies e1[i] == e2[i] by {
        assert(call_ensures(P::times, (&p, cov[i], line_density), e1[i]) && call_ensures(
            P::times,
            (&p, cov[i], line_density),
            e2[i],
        ));
    }
    assert(e1 =~= e2);
    lemma_spread_settled(p, e1, h, w, table, rc, params.periodic, one.u_edge@, two.u_edge@);
    assert(one.paint_blocked@ =~= two.paint_blocked@);
    assert(one.scene() =~= two.scene());
    assert(one.layout() == two.layout());
    lemma_totals_settled(p, one.layout(), one.energy, two.energy);
}

/// So can a gas on a blank canvas.
pub proof fn law_a_blank_gas_can_be_set_up_again<P: Physics>(p: P, params: Params<P::Real>, n: int, one: Sim<P::Real>, two: Sim<P::Real>)
    requires
        all_settled(p),
        set_up_blank(p, params, n, one),
        set_up_blank(p, params, n, two),
        one.wf(),
        two.wf(),
    ensures
        one@ == two@,
{
    let total = params.h * params.w;
    let take = if n < total {
        n
    } else {
        total
    };
    let (c1, o1, d1) = choose|cov: Seq<P::Real>, occ0: Seq<bool>, line: P::Real| #[trigger]
        set_up(p, params, cov, occ0, line, false, one) && (forall|c: int|
            0 <= c < total ==> call_ensures(P::zero, (&p,), #[trigger] cov[c])) && call_ensures(P::one, (&p,), line) && occ0.len()
            == total && evenly_lit(occ0, take);
    let (c2, o2, d2) = choose|cov: Seq<P::Real>, occ0: Seq<bool>, line: P::Real| #[trigger]
        set_up(p, params, cov, occ0, line, false, two) && (forall|c: int|
            0 <= c < total ==> call_ensures(P::zero, (&p,), #[trigger] cov[c])) && call_ensures(P::one, (&p,), line) && occ0.len()
            == total && evenly_lit(occ0, take);
    assert forall|c: int| 0 <= c < total implies c1[c] == c2[c] && o1[c] == o2[c] by {
        assert(call_ensures(P::zero, (&p,), c1[c]) && call_ensures(P::zero, (&p,), c2[c]));
    }
    assert(c1 =~= c2);
    assert(o1 =~= o2);
    assert(d1 == d2);
    law_a_gas_can_be_set_up_again(p, params, c1, o1, d1, false, one, two);
}

/// A run can be repeated from the start: the same parameters, seed among them,
/// lines, cells and number of iterations give the same gas.
pub proof fn law_a_run_can_be_repeated<P: Physics>(
    p: P,
    params: Params<P::Real>,
    cov: Seq<P::Real>,
    occ0: Seq<bool>,
    line_density: P::Real,
    line_blocks: bool,
    one: Sim<P::Real>,
    two: Sim<P::Real>,
    n: nat,
    after_one: Gas<P::Real>,
    after_two: Gas<P::Real>,
)
    requires
        all_settled(p),
        set_up(p, params, cov, occ0, line_density, line_blocks, one),
        set_up(p, params, cov, occ0, line_density, line_blocks, two),
        one.wf(),
        two.wf(),
        ran(p, one@, n, after_one),
        ran(p, two@, n, after_two),
    ensures
        after_one == after_two,
{
    law_a_gas_can_be_set_up_again(p, params, cov, occ0, line_density, line_blocks, one, two);
    law_annealing_can_be_repeated(p, one@, n, after_one, after_two);
}

/// Nor does it matter whether a run is interrupted: from equal starts, `m`
/// iterations and `n` more give the gas that `m + n` at once give.
pub proof fn law_a_run_can_be_split<P: Physics>(
    p: P,
    params: Params<P::Real>,
    cov: Seq<P::Real>,
    occ0: Seq<bool>,
    line_density: P::Real,
    line_blocks: bool,
    one: Sim<P::Real>,
    two: Sim<P::Real>,
    m: nat,
    n: nat,
    mid: Gas<P::Real>,
    split: Gas<P::Real>,
    whole: Gas<P::Real>,
)
    requires
        all_settled(p),
        set_up(p, params, cov, occ0, line_density, line_blocks, one),
        set_up(p, params, cov, occ0, line_density, line_blocks, two),
        one.wf(),
        two.wf(),
        ran(p, one@, m, mid),
        ran(p, mid, n, split),
        ran(p, two@, m + n, whole),
    ensures
        split == whole,
{
    law_runs_join(p, one@, m, mid, n, split);
    law_a_run_can_be_repeated(p, params, cov, occ0, line_density, line_blocks, one, two, m + n, split, whole);
}

/// So it is on a blank canvas.
pub proof fn law_a_blank_run_can_be_split<P: Physics>(
    p: P,
    params: Params<P::Real>,
    particles: int,
    one: Sim<P::Real>,
    two: Sim<P::Real>,
    m: nat,
    n: nat,
    mid: Gas<P::Real>,
    split: Gas<P::Real>,
    whole: Gas<P::Real>,
)
    requires
        all_settled(p),
        set_up_blank(p, params, particles, one),
        set_up_blank(p, params, particles, two),
        one.wf(),
        two.wf(),
        ran(p, one@, m, mid),
        ran(p, mid, n, split),
        ran(p, two@, m + n, whole),
    ensures
        split == whole,
{
    law_a_blank_gas_can_be_set_up_again(p, params, particles, one, two);
    law_runs_join(p, one@, m, mid, n, split);
    law_annealing_can_be_repeated(p, one@, m + n, split, whole);
}

} // verus!

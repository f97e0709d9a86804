//! Convolution on the lattice: between walls on a padded torus, on a torus
//! around itself.

use crate::kernel::{lemma_ring_bound, side, table_fits};
use crate::lattice::{flat, gap, grid, lemma_flat_bound, lemma_gap_turns, lemma_same_turn};
use crate::physics::Physics;
use crate::spectrum::{convolve_torus, convolved, keeps_length};
use vstd::arithmetic::div_mod::{lemma_fundamental_div_mod, lemma_fundamental_div_mod_converse};
use vstd::prelude::*;

verus! {

/// How much room is left on each side of the lattice: between walls, as much
/// as the table reaches.
pub open spec fn margin(rc: int, periodic: bool) -> int {
    if periodic {
        0
    } else {
        rc
    }
}

/// A side of the torus on which an `n`-cell side of the lattice is convolved.
pub open spec fn padded(n: int, rc: int, periodic: bool) -> int {
    n + 2 * margin(rc, periodic)
}

/// A lattice of `h` by `w` cells can be convolved by a table that reaches `rc`
/// cells: a torus has cells, and all of it fits the machine.
pub open spec fn field_fits(h: int, w: int, rc: int, periodic: bool) -> bool {
    &&& table_fits(rc)
    &&& padded(h, rc, periodic) > 0
    &&& padded(w, rc, periodic) > 0
    &&& padded(h, rc, periodic) <= i64::MAX
    &&& padded(w, rc, periodic) <= i64::MAX
    &&& padded(h, rc, periodic) * padded(w, rc, periodic) <= usize::MAX
}

/// `big` holds the `h` by `w` field `small`, `off` cells in from its corner,
/// and `z` everywhere else.
pub open spec fn embedded<R>(small: Seq<R>, h: int, w: int, off: int, fh: int, fw: int, z: R, big: Seq<R>) -> bool {
    &&& big.len() == fh * fw
    &&& forall|y: int, x: int|
        0 <= y < fh && 0 <= x < fw ==> #[trigger] big[flat(fw, y, x)] == (if off <= y < off + h && off <= x < off + w {
            small[flat(w, y - off, x - off)]
        } else {
            z
        })
}

/// Line `i` of a table that reaches `rc` cells, its centre laid on line zero of
/// a ring of `n`, falls on line `r`.
pub open spec fn falls_on(rc: int, n: int, r: int, i: int) -> bool {
    0 <= i < side(rc) && (i - rc) % n == r
}

/// The last line of the table that falls on line `r` of the ring.
#[verifier::opaque]
pub open spec fn last_on(rc: int, n: int, r: int) -> Option<int> {
    if exists|i: int| #[trigger] falls_on(rc, n, r, i) {
        Some(choose|i: int| #[trigger] falls_on(rc, n, r, i) && forall|j: int| #[trigger] falls_on(rc, n, r, j) ==> j <= i)
    } else {
        None
    }
}

/// What a torus of `fh` by `fw` cells holds at `(y, x)` once a table is laid
/// around its origin, where lines that fall on one another hide all but the
/// last of them.
pub open spec fn wrapped_at<R>(table: Seq<R>, rc: int, fh: int, fw: int, z: R, y: int, x: int) -> R {
    match (last_on(rc, fh, y), last_on(rc, fw, x)) {
        (Some(i), Some(j)) => table[flat(side(rc), i, j)],
        _ => z,
    }
}

/// `big` is the torus on which `table` is laid around the origin.
pub open spec fn wrapped<R>(table: Seq<R>, rc: int, fh: int, fw: int, z: R, big: Seq<R>) -> bool {
    &&& big.len() == fh * fw
    &&& forall|y: int, x: int|
        0 <= y < fh && 0 <= x < fw ==> #[trigger] big[flat(fw, y, x)] == wrapped_at(table, rc, fh, fw, z, y, x)
}

/// `small` is the `h` by `w` window of `big`, `off` cells in from its corner.
pub open spec fn cropped<R>(big: Seq<R>, h: int, w: int, off: int, fw: int, small: Seq<R>) -> bool {
    &&& small.len() == h * w
    &&& forall|y: int, x: int|
        0 <= y < h && 0 <= x < w ==> #[trigger] small[flat(w, y, x)] == big[flat(fw, y + off, x + off)]
}

/// `out` is the field `field` convolved by `table` on the lattice.
pub open spec fn spread<P: Physics>(
    p: P,
    field: Seq<P::Real>,
    h: int,
    w: int,
    table: Seq<P::Real>,
    rc: int,
    periodic: bool,
    out: Seq<P::Real>,
) -> bool {
    exists|z: P::Real, src: Seq<P::Real>, ker: Seq<P::Real>, full: Seq<P::Real>| #[trigger]
        spread_by(p, field, h, w, table, rc, periodic, out, z, src, ker, full)
}

/// The field padded with `z`, the table laid around the origin, their
/// convolution around the torus, and the window of it on the lattice.
pub open spec fn spread_by<P: Physics>(
    p: P,
    field: Seq<P::Real>,
    h: int,
    w: int,
    table: Seq<P::Real>,
    rc: int,
    periodic: bool,
    out: Seq<P::Real>,
    z: P::Real,
    src: Seq<P::Real>,
    ker: Seq<P::Real>,
    full: Seq<P::Real>,
) -> bool {
    let (fh, fw, off) = (padded(h, rc, periodic), padded(w, rc, periodic), margin(rc, periodic));
    &&& call_ensures(P::zero, (&p,), z)
    &&& embedded(field, h, w, off, fh, fw, z, src)
    &&& wrapped(table, rc, fh, fw, z, ker)
    &&& convolved(p, fh, fw, src, ker, full)
    &&& cropped(full, h, w, off, fw, out)
}

/// The last line of the table that falls on a line is the highest that is a
/// whole number of turns above the first.
pub proof fn lemma_last_on(rc: int, n: int, r: int)
    requires
        rc >= 0,
        n > 0,
        0 <= r < n,
    ensures
        ({
            let b = (r + rc) % n;
            if b <= 2 * rc {
                last_on(rc, n, r) == Some(b + n * ((2 * rc - b) / n)) && b + n * ((2 * rc - b) / n) <= 2 * rc
            } else {
                last_on(rc, n, r) is None
            }
        }),
{
    reveal(last_on);
    let b = (r + rc) % n;
    let turns = (2 * rc - b) / n;
    let top = b + n * turns;
    lemma_fundamental_div_mod(r + rc, n);
    assert forall|i: int| #[trigger] falls_on(rc, n, r, i) implies i % n == b && i >= b by {
        let q = (i - rc) / n;
        lemma_fundamental_div_mod(i - rc, n);
        // i == n * q + r + rc, and r + rc == n * ((r + rc) / n) + b
        assert(i == (q + (r + rc) / n) * n + b) by (nonlinear_arith)
            requires
                i - rc == n * q + r,
                r + rc == n * ((r + rc) / n) + b,
        ;
        lemma_fundamental_div_mod_converse(i, n, q + (r + rc) / n, b);
        lemma_fundamental_div_mod(i, n);
        assert(n * (i / n) >= 0) by (nonlinear_arith)
            requires
                n > 0,
                i >= 0,
                i == n * (i / n) + b,
                0 <= b < n,
        ;
    }
    if b <= 2 * rc {
        lemma_fundamental_div_mod(2 * rc - b, n);
        assert(n * turns >= 0) by (nonlinear_arith)
            requires
                n > 0,
                2 * rc - b >= 0,
                2 * rc - b == n * turns + (2 * rc - b) % n,
                0 <= (2 * rc - b) % n < n,
        ;
        assert(top - rc == (turns - (r + rc) / n) * n + r) by (nonlinear_arith)
            requires
                top == b + n * turns,
                r + rc == n * ((r + rc) / n) + b,
        ;
        lemma_fundamental_div_mod_converse(top - rc, n, turns - (r + rc) / n, r);
        assert(falls_on(rc, n, r, top));
        assert forall|j: int| #[trigger] falls_on(rc, n, r, j) implies j <= top by {
            lemma_fundamental_div_mod(j, n);
            assert(j / n <= turns) by (nonlinear_arith)
                requires
                    n > 0,
                    j == n * (j / n) + b,
                    j <= 2 * rc,
                    2 * rc - b < n * turns + n,
            ;
            assert(n * (j / n) <= n * turns) by (nonlinear_arith)
                requires
                    n > 0,
                    j / n <= turns,
            ;
        }
    } else if exists|i: int| #[trigger] falls_on(rc, n, r, i) {
        let i = choose|i: int| #[trigger] falls_on(rc, n, r, i);
        assert(i >= b);
    }
}

/// The last line of the table that falls on line `r`.
fn last_line(rc: usize, n: usize, r: usize) -> (i: Option<usize>)
    requires
        table_fits(rc as int),
        0 <= r < n <= i64::MAX,
    ensures
        match i {
            Some(i) => i < side(rc as int) && last_on(rc as int, n as int, r as int) == Some(i as int),
            None => last_on(rc as int, n as int, r as int) is None,
        },
{
    proof {
        lemma_ring_bound(rc as int, 0, 0);
        lemma_last_on(rc as int, n as int, r as int);
    }
    let ring = n as u64;
    let b: u64 = (r as u64 + rc as u64) % ring;
    let reach: u64 = 2 * rc as u64;
    if b > reach {
        return None;
    }
    let turns: u64 = (reach - b) / ring;
    assert(b == (r + rc) % n as int);
    assert(turns == (2 * rc - b) / n as int);
    Some((b + ring * turns) as usize)
}

/// The field `small` inside a torus of `fh` by `fw` cells.
fn embed<R: Copy>(small: &Vec<R>, h: usize, w: usize, off: usize, fh: usize, fw: usize, zero: R) -> (big: Vec<R>)
    requires
        small@.len() == h * w,
        off + h <= fh,
        off + w <= fw,
        fh * fw <= usize::MAX,
    ensures
        embedded(small@, h as int, w as int, off as int, fh as int, fw as int, zero, big@),
{
    let cells = small.len();
    let take = |y: usize, x: usize| -> (v: R)
        ensures
            v == (if off <= y < off + h && off <= x < off + w {
                small@[flat(w as int, y - off, x - off)]
            } else {
                zero
            }),
        {
            assert(small@.len() == cells == h * w && off + h <= fh && off + w <= fw);
            if off <= y && y - off < h && off <= x && x - off < w {
                proof {
                    lemma_flat_bound(h as int, w as int, y - off, x - off);
                }
                small[(y - off) * w + (x - off)]
            } else {
                zero
            }
        };
    let big = grid(fh, fw, &take);
    proof {
        assert forall|y: int, x: int| 0 <= y < fh && 0 <= x < fw implies #[trigger] big@[flat(fw as int, y, x)] == (if off <= y
            < off + h && off <= x < off + w {
            small@[flat(w as int, y - off, x - off)]
        } else {
            zero
        }) by {
            assert(take.ensures((y as usize, x as usize), big@[flat(fw as int, y as usize as int, x as usize as int)]));
        }
    }
    big
}

/// The table laid around the origin of a torus of `fh` by `fw` cells.
fn lay_table<R: Copy>(table: &Vec<R>, rc: usize, fh: usize, fw: usize, zero: R) -> (big: Vec<R>)
    requires
        table_fits(rc as int),
        table@.len() == side(rc as int) * side(rc as int),
        fh <= i64::MAX,
        fw <= i64::MAX,
        fh * fw <= usize::MAX,
    ensures
        wrapped(table@, rc as int, fh as int, fw as int, zero, big@),
{
    proof {
        lemma_ring_bound(rc as int, 0, 0);
    }
    let n = 2 * rc + 1;
    let cells = table.len();
    let take = |y: usize, x: usize| -> (v: R)
        requires
            y < fh,
            x < fw,
        ensures
            v == wrapped_at(table@, rc as int, fh as int, fw as int, zero, y as int, x as int),
        {
            match (last_line(rc, fh, y), last_line(rc, fw, x)) {
                (Some(i), Some(j)) => {
                    proof {
                        lemma_flat_bound(n as int, n as int, i as int, j as int);
                    }
                    table[i * n + j]
                },
                _ => zero,
            }
        };
    let big = grid(fh, fw, &take);
    proof {
        assert forall|y: int, x: int| 0 <= y < fh && 0 <= x < fw implies #[trigger] big@[flat(fw as int, y, x)] == wrapped_at(
            table@,
            rc as int,
            fh as int,
            fw as int,
            zero,
            y,
            x,
        ) by {
            assert(take.ensures((y as usize, x as usize), big@[flat(fw as int, y as usize as int, x as usize as int)]));
        }
    }
    big
}

/// The `h` by `w` window of `big`, `off` cells in from its corner.
fn crop<R: Copy>(big: &Vec<R>, h: usize, w: usize, off: usize, fh: usize, fw: usize) -> (small: Vec<R>)
    requires
        big@.len() == fh * fw,
        off + h <= fh,
        off + w <= fw,
    ensures
        cropped(big@, h as int, w as int, off as int, fw as int, small@),
{
    let cells = big.len();
    proof {
        assert(h * w <= fh * fw) by (nonlinear_arith)
            requires
                0 <= h <= fh,
                0 <= w <= fw,
        ;
    }
    let take = |y: usize, x: usize| -> (v: R)
        requires
            y < h,
            x < w,
        ensures
            v == big@[flat(fw as int, y + off, x + off)],
        {
            proof {
                assert(big@.len() == cells == fh * fw && off + h <= fh && off + w <= fw);
                lemma_flat_bound(fh as int, fw as int, y + off, x + off);
            }
            big[(y + off) * fw + (x + off)]
        };
    let small = grid(h, w, &take);
    proof {
        assert forall|y: int, x: int| 0 <= y < h && 0 <= x < w implies #[trigger] small@[flat(w as int, y, x)] == big@[flat(
            fw as int,
            y + off,
            x + off,
        )] by {
            assert(take.ensures((y as usize, x as usize), small@[flat(w as int, y as usize as int, x as usize as int)]));
        }
    }
    small
}

/// Convolves a field on the lattice by a square table that reaches `rc` cells.
/// Between walls nothing reaches around.
pub fn convolve<P: Physics>(
    p: &P,
    field: &Vec<P::Real>,
    h: usize,
    w: usize,
    table: &Vec<P::Real>,
    rc: usize,
    periodic: bool,
) -> (out: Vec<P::Real>)
    requires
        keeps_length(*p),
        field@.len() == h * w,
        field_fits(h as int, w as int, rc as int, periodic),
        table@.len() == side(rc as int) * side(rc as int),
    ensures
        spread(*p, field@, h as int, w as int, table@, rc as int, periodic, out@),
        out@.len() == h * w,
{
    let off: usize = if periodic { 0 } else { rc };
    proof {
        lemma_padded_fits(h as int, w as int, rc as int, periodic);
    }
    let fh = h + 2 * off;
    let fw = w + 2 * off;
    let zero = p.zero();
    let src = embed(field, h, w, off, fh, fw, zero);
    let ker = lay_table(table, rc, fh, fw, zero);
    let full = convolve_torus(p, fh, fw, &src, &ker);
    let out = crop(&full, h, w, off, fh, fw);
    assert(spread_by(*p, field@, h as int, w as int, table@, rc as int, periodic, out@, zero, src@, ker@, full@));
    out
}

/// The sides of the padded torus fit the machine.
proof fn lemma_padded_fits(h: int, w: int, rc: int, periodic: bool)
    requires
        h >= 0,
        w >= 0,
        rc >= 0,
        field_fits(h, w, rc, periodic),
    ensures
        padded(h, rc, periodic) <= usize::MAX,
        padded(w, rc, periodic) <= usize::MAX,
        2 * margin(rc, periodic) <= usize::MAX,
{
    let (fh, fw) = (padded(h, rc, periodic), padded(w, rc, periodic));
    assert(fh <= fh * fw && fw <= fh * fw) by (nonlinear_arith)
        requires
            fh > 0,
            fw > 0,
    ;
}

/// Line `d + rc` of the table, and no other, falls on line `d` around the ring,
/// where the ring is long enough for both.
proof fn lemma_only_line(rc: int, n: int, d: int)
    requires
        rc >= 0,
        n > 0,
        -(n - rc) < d < n - rc,
    ensures
        last_on(rc, n, d % n) == (if -rc <= d <= rc {
            Some(d + rc)
        } else {
            None::<int>
        }),
{
    reveal(last_on);
    let r = d % n;
    assert forall|i: int| #[trigger] falls_on(rc, n, r, i) implies i == d + rc by {
        lemma_same_turn(i - rc, d, n);
    }
    if -rc <= d <= rc {
        assert(falls_on(rc, n, r, d + rc));
    }
}

/// Between walls the padding keeps every cell's surroundings apart: what the
/// laid table holds for the step from `(v, u)` to `(y, x)` is the table's entry
/// for just that step, and nothing if the step is longer than it reaches.
pub proof fn law_walls_keep_tables_apart<R>(table: Seq<R>, rc: int, h: int, w: int, z: R, y: int, x: int, v: int, u: int)
    requires
        rc >= 0,
        0 <= y < h,
        0 <= v < h,
        0 <= x < w,
        0 <= u < w,
    ensures
        ({
            let (fh, fw) = (padded(h, rc, false), padded(w, rc, false));
            wrapped_at(table, rc, fh, fw, z, (y - v) % fh, (x - u) % fw) == (if -rc <= y - v <= rc && -rc <= x - u <= rc {
                table[flat(side(rc), y - v + rc, x - u + rc)]
            } else {
                z
            })
        }),
{
    lemma_only_line(rc, padded(h, rc, false), y - v);
    lemma_only_line(rc, padded(w, rc, false), x - u);
}

/// On a torus no smaller than the table, too: what the laid table holds for the
/// step from `(v, u)` to `(y, x)` is the table's entry for that step the shorter
/// way around, and nothing if the step is longer than it reaches.
pub proof fn law_torus_keeps_table_apart<R>(table: Seq<R>, rc: int, h: int, w: int, z: R, y: int, x: int, v: int, u: int)
    requires
        rc >= 0,
        side(rc) <= h,
        side(rc) <= w,
    ensures
        ({
            let (dy, dx) = (gap(y, v, h, true), gap(x, u, w, true));
            wrapped_at(table, rc, h, w, z, (y - v) % h, (x - u) % w) == (if -rc <= dy <= rc && -rc <= dx <= rc {
                table[flat(side(rc), dy + rc, dx + rc)]
            } else {
                z
            })
        }),
{
    lemma_gap_turns(y, v, h);
    lemma_gap_turns(x, u, w);
    lemma_only_line(rc, h, gap(y, v, h, true));
    lemma_only_line(rc, w, gap(x, u, w, true));
}

/// The least power of two that is at least `n`.
pub open spec fn ceil_pow2(n: int) -> int
    decreases n,
{
    if n <= 1 {
        1
    } else {
        2 * ceil_pow2((n + 1) / 2)
    }
}

/// No power of two is passed over.
pub proof fn lemma_ceil_pow2(n: int)
    ensures
        n <= ceil_pow2(n),
        1 <= ceil_pow2(n),
        n >= 1 ==> ceil_pow2(n) < 2 * n,
    decreases n,
{
    if n > 1 {
        lemma_ceil_pow2((n + 1) / 2);
    }
}

/// The least power of two that is at least `n`, if it fits the machine.
pub fn pow2_from(n: usize) -> (r: Option<usize>)
    ensures
        match r {
            Some(r) => r == ceil_pow2(n as int),
            None => ceil_pow2(n as int) > usize::MAX,
        },
    decreases n,
{
    if n <= 1 {
        return Some(1);
    }
    match pow2_from(n / 2 + n % 2) {
        Some(half) => half.checked_mul(2),
        None => None,
    }
}

/// A full convolution of `ah` by `aw` and `bh` by `bw` cells fits the machine.
pub open spec fn full_fits(ah: int, aw: int, bh: int, bw: int) -> bool {
    &&& ah >= 1
    &&& aw >= 1
    &&& bh >= 1
    &&& bw >= 1
    &&& ceil_pow2(ah + bh - 1) * ceil_pow2(aw + bw - 1) <= usize::MAX
}

/// `out` is the full convolution of `a` by `b`, `ah + bh - 1` by `aw + bw - 1`
/// cells of it.
pub open spec fn spread_full<P: Physics>(
    p: P,
    a: Seq<P::Real>,
    ah: int,
    aw: int,
    b: Seq<P::Real>,
    bh: int,
    bw: int,
    out: Seq<P::Real>,
) -> bool {
    exists|z: P::Real, pa: Seq<P::Real>, pb: Seq<P::Real>, full: Seq<P::Real>| #[trigger]
        spread_full_by(p, a, ah, aw, b, bh, bw, out, z, pa, pb, full)
}

/// Both padded with `z` to a torus of powers of two, their convolution around
/// it, and the corner of that.
pub open spec fn spread_full_by<P: Physics>(
    p: P,
    a: Seq<P::Real>,
    ah: int,
    aw: int,
    b: Seq<P::Real>,
    bh: int,
    bw: int,
    out: Seq<P::Real>,
    z: P::Real,
    pa: Seq<P::Real>,
    pb: Seq<P::Real>,
    full: Seq<P::Real>,
) -> bool {
    let (fh, fw) = (ceil_pow2(ah + bh - 1), ceil_pow2(aw + bw - 1));
    &&& call_ensures(P::zero, (&p,), z)
    &&& embedded(a, ah, aw, 0, fh, fw, z, pa)
    &&& embedded(b, bh, bw, 0, fh, fw, z, pb)
    &&& convolved(p, fh, fw, pa, pb, full)
    &&& cropped(full, ah + bh - 1, aw + bw - 1, 0, fw, out)
}

/// The sides of a full convolution and of its torus fit the machine.
proof fn lemma_full_fits(ah: int, aw: int, bh: int, bw: int)
    requires
        full_fits(ah, aw, bh, bw),
    ensures
        ah + bh - 1 <= ceil_pow2(ah + bh - 1) <= usize::MAX,
        aw + bw - 1 <= ceil_pow2(aw + bw - 1) <= usize::MAX,
{
    let (fh, fw) = (ceil_pow2(ah + bh - 1), ceil_pow2(aw + bw - 1));
    lemma_ceil_pow2(ah + bh - 1);
    lemma_ceil_pow2(aw + bw - 1);
    assert(fh <= fh * fw && fw <= fh * fw) by (nonlinear_arith)
        requires
            fh >= 1,
            fw >= 1,
    ;
}

/// Whether a full convolution fits the machine.
pub fn has_full(ah: usize, aw: usize, bh: usize, bw: usize) -> (r: bool)
    ensures
        r == full_fits(ah as int, aw as int, bh as int, bw as int),
{
    if ah == 0 || aw == 0 || bh == 0 || bw == 0 {
        return false;
    }
    proof {
        let (fh, fw) = (ceil_pow2(ah + bh - 1), ceil_pow2(aw + bw - 1));
        lemma_ceil_pow2(ah + bh - 1);
        lemma_ceil_pow2(aw + bw - 1);
        assert(fh <= fh * fw && fw <= fh * fw) by (nonlinear_arith)
            requires
                fh >= 1,
                fw >= 1,
        ;
    }
    match ((ah - 1).checked_add(bh), (aw - 1).checked_add(bw)) {
        (Some(oh), Some(ow)) => match (pow2_from(oh), pow2_from(ow)) {
            (Some(fh), Some(fw)) => fh.checked_mul(fw).is_some(),
            _ => false,
        },
        _ => false,
    }
}

/// Every sum of `a` and `b` within reach of one another, and the sides of the
/// result.
pub fn convolve_full<P: Physics>(
    p: &P,
    a: &Vec<P::Real>,
    ah: usize,
    aw: usize,
    b: &Vec<P::Real>,
    bh: usize,
    bw: usize,
) -> (r: (Vec<P::Real>, usize, usize))
    requires
        keeps_length(*p),
        full_fits(ah as int, aw as int, bh as int, bw as int),
        a@.len() == ah * aw,
        b@.len() == bh * bw,
    ensures
        r.1 == ah + bh - 1,
        r.2 == aw + bw - 1,
        r.0@.len() == r.1 * r.2,
        spread_full(*p, a@, ah as int, aw as int, b@, bh as int, bw as int, r.0@),
{
    proof {
        lemma_full_fits(ah as int, aw as int, bh as int, bw as int);
    }
    let oh = (ah - 1) + bh;
    let ow = (aw - 1) + bw;
    let (fh, fw) = match (pow2_from(oh), pow2_from(ow)) {
        (Some(fh), Some(fw)) => (fh, fw),
        _ => (oh, ow),
    };
    let zero = p.zero();
    let pa = embed(a, ah, aw, 0, fh, fw, zero);
    let pb = embed(b, bh, bw, 0, fh, fw, zero);
    let full = convolve_torus(p, fh, fw, &pa, &pb);
    let out = crop(&full, oh, ow, 0, fh, fw);
    assert(spread_full_by(*p, a@, ah as int, aw as int, b@, bh as int, bw as int, out@, zero, pa@, pb@, full@));
    (out, oh, ow)
}

/// The torus of a full convolution is large enough: a cell of `a` and one of
/// `b` that meet on it meet without going around.
pub proof fn law_full_convolution_does_not_wrap(an: int, bn: int, i: int, j: int, k: int)
    requires
        0 <= i < an,
        0 <= j < bn,
        0 <= k < an + bn - 1,
        (i + j) % ceil_pow2(an + bn - 1) == k,
    ensures
        i + j == k,
{
    lemma_ceil_pow2(an + bn - 1);
    vstd::arithmetic::div_mod::lemma_small_mod((i + j) as nat, ceil_pow2(an + bn - 1) as nat);
}

} // verus!

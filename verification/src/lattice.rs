//! Cells of an `h` by `w` lattice, stored row by row.

use vstd::arithmetic::div_mod::{lemma_fundamental_div_mod, lemma_fundamental_div_mod_converse};
use vstd::prelude::*;

verus! {

/// Where the cell in row `y` and column `x` stands in a row-major store of
/// rows of width `w`.
pub open spec fn flat(w: int, y: int, x: int) -> int {
    y * w + x
}

/// A cell inside the lattice has a place in its store.
pub proof fn lemma_flat_bound(h: int, w: int, y: int, x: int)
    requires
        0 <= y < h,
        0 <= x < w,
    ensures
        0 <= flat(w, y, x) < h * w,
        0 <= y * w <= h * w - w,
{
    assert(0 <= y * w <= (h - 1) * w) by (nonlinear_arith)
        requires
            0 <= y < h,
            0 <= x < w,
    ;
    assert((h - 1) * w == h * w - w) by (nonlinear_arith);
}

/// No two cells share a place.
pub proof fn lemma_flat_injective(w: int, y1: int, x1: int, y2: int, x2: int)
    requires
        0 <= x1 < w,
        0 <= x2 < w,
        flat(w, y1, x1) == flat(w, y2, x2),
    ensures
        y1 == y2,
        x1 == x2,
{
    lemma_fundamental_div_mod_converse(flat(w, y1, x1), w, y1, x1);
    lemma_fundamental_div_mod_converse(flat(w, y2, x2), w, y2, x2);
}

/// Every place belongs to a cell.
pub proof fn lemma_flat_inverse(h: int, w: int, c: int)
    requires
        0 <= c < h * w,
        0 <= w,
    ensures
        w > 0,
        0 <= c / w < h,
        0 <= c % w < w,
        flat(w, c / w, c % w) == c,
{
    assert(w > 0) by (nonlinear_arith)
        requires
            0 <= c < h * w,
            0 <= w,
    ;
    lemma_fundamental_div_mod(c, w);
    assert(w * (c / w) == (c / w) * w) by (nonlinear_arith);
    assert(0 <= c / w < h) by (nonlinear_arith)
        requires
            0 <= c < h * w,
            w > 0,
            c == (c / w) * w + c % w,
            0 <= c % w < w,
    ;
}

/// `v` carried onto `0..n` by whole turns around a ring of `n` cells.
pub fn wrap(v: i64, n: i64) -> (r: i64)
    requires
        n > 0,
    ensures
        r == v as int % n as int,
        0 <= r < n,
{
    match v.checked_rem_euclid(n) {
        Some(r) => r,
        None => 0,
    }
}

/// The step from `b` to `a` along one axis: the plain difference between walls,
/// and on a ring of `n` cells the representative that starts at `-(n / 2)`.
pub open spec fn gap(a: int, b: int, n: int, periodic: bool) -> int {
    if periodic {
        (a - b + n / 2) % n - n / 2
    } else {
        a - b
    }
}

/// Two numbers less than a turn apart that stand alike on a ring are the same.
pub proof fn lemma_same_turn(x: int, y: int, n: int)
    requires
        n > 0,
        x % n == y % n,
        -n < x - y < n,
    ensures
        x == y,
{
    lemma_fundamental_div_mod(x, n);
    lemma_fundamental_div_mod(y, n);
    let k = x / n - y / n;
    assert(x - y == n * k) by (nonlinear_arith)
        requires
            x == n * (x / n) + x % n,
            y == n * (y / n) + y % n,
            x % n == y % n,
            k == x / n - y / n,
    ;
    assert(k == 0) by (nonlinear_arith)
        requires
            -n < n * k < n,
            n > 0,
    ;
}

/// The shorter way around a ring is the plain step, but for whole turns.
pub proof fn lemma_gap_turns(a: int, b: int, n: int)
    requires
        n > 0,
    ensures
        gap(a, b, n, true) % n == (a - b) % n,
        -(n / 2) <= gap(a, b, n, true) < n - n / 2,
{
    let d = a - b + n / 2;
    let r = d % n - n / 2;
    lemma_fundamental_div_mod(d, n);
    let q = d / n;
    vstd::arithmetic::div_mod::lemma_mod_multiples_vanish(q, r, n);
    assert(n * q + r == a - b);
}

/// A step of the gap leads from one line of a ring to the other.
pub proof fn lemma_gap_leads(a: int, b: int, n: int)
    requires
        0 <= a < n,
    ensures
        (b + gap(a, b, n, true)) % n == a,
{
    let g = gap(a, b, n, true);
    lemma_gap_turns(a, b, n);
    lemma_fundamental_div_mod(g, n);
    lemma_fundamental_div_mod(a - b, n);
    let k = g / n - (a - b) / n;
    assert(b + g == n * k + a) by (nonlinear_arith)
        requires
            g == n * (g / n) + g % n,
            a - b == n * ((a - b) / n) + (a - b) % n,
            g % n == (a - b) % n,
            k == g / n - (a - b) / n,
    ;
    vstd::arithmetic::div_mod::lemma_mod_multiples_vanish(k, a, n);
    vstd::arithmetic::div_mod::lemma_small_mod(a as nat, n as nat);
}

/// A step of no more than half a turn is the gap that it leads over.
pub proof fn lemma_gap_of_step(b: int, d: int, rc: int, n: int)
    requires
        -rc <= d <= rc,
        2 * rc + 1 <= n,
    ensures
        gap((b + d) % n, b, n, true) == d,
{
    let a = (b + d) % n;
    let g = gap(a, b, n, true);
    lemma_gap_turns(a, b, n);
    lemma_gap_leads(a, b, n);
    lemma_fundamental_div_mod(b + g, n);
    lemma_fundamental_div_mod(b + d, n);
    lemma_same_turn(b + g, b + d, n);
}

/// How many of `cells` are lit.
pub open spec fn count_lit(cells: Seq<bool>) -> nat
    decreases cells.len(),
{
    if cells.len() == 0 {
        0
    } else {
        count_lit(cells.drop_last()) + if cells.last() { 1nat } else { 0nat }
    }
}

/// Row and column of a cell, from its place.
pub proof fn lemma_flat_parts(w: int, y: int, x: int)
    requires
        0 <= x < w,
    ensures
        flat(w, y, x) / w == y,
        flat(w, y, x) % w == x,
{
    lemma_fundamental_div_mod_converse(flat(w, y, x), w, y, x);
}

/// A store of `h` rows of width `w` in which `f` says what each cell holds.
pub fn grid<T, F: Fn(usize, usize) -> T>(h: usize, w: usize, f: &F) -> (cells: Vec<T>)
    requires
        h * w <= usize::MAX,
        forall|y: usize, x: usize| y < h && x < w ==> #[trigger] f.requires((y, x)),
    ensures
        cells@.len() == h * w,
        forall|y: usize, x: usize|
            #![trigger f.ensures((y, x), cells@[flat(w as int, y as int, x as int)])]
            y < h && x < w ==> f.ensures((y, x), cells@[flat(w as int, y as int, x as int)]),
{
    let mut cells: Vec<T> = Vec::with_capacity(h * w);
    let mut y: usize = 0;
    while y < h
        invariant
            y <= h,
            h * w <= usize::MAX,
            cells@.len() == y * w,
            forall|y: usize, x: usize| y < h && x < w ==> #[trigger] f.requires((y, x)),
            forall|v: usize, u: usize|
                #![trigger f.ensures((v, u), cells@[flat(w as int, v as int, u as int)])]
                v < y && u < w ==> f.ensures((v, u), cells@[flat(w as int, v as int, u as int)]),
        decreases h - y,
    {
        let mut x: usize = 0;
        while x < w
            invariant
                y < h,
                x <= w,
                cells@.len() == y * w + x,
                forall|y: usize, x: usize| y < h && x < w ==> #[trigger] f.requires((y, x)),
                forall|v: usize, u: usize|
                    #![trigger f.ensures((v, u), cells@[flat(w as int, v as int, u as int)])]
                    v < y && u < w || v == y && u < x ==> f.ensures((v, u), cells@[flat(w as int, v as int, u as int)]),
            decreases w - x,
        {
            let cell = f(y, x);
            let ghost before = cells@;
            cells.push(cell);
            proof {
                assert forall|v: usize, u: usize|
                    #![trigger f.ensures((v, u), cells@[flat(w as int, v as int, u as int)])]
                    v < y && u < w || v == y && u < x + 1 implies f.ensures((v, u), cells@[flat(w as int, v as int, u as int)]) by {
                    let c = flat(w as int, v as int, u as int);
                    if v < y {
                        lemma_flat_bound(y as int, w as int, v as int, u as int);
                        assert(f.ensures((v, u), before[c]));
                    } else if u < x {
                        assert(f.ensures((v, u), before[c]));
                    }
                }
            }
            x = x + 1;
        }
        proof {
            assert((y + 1) * w == y * w + w) by (nonlinear_arith);
        }
        y = y + 1;
    }
    cells
}

} // verus!

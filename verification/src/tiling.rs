//! Tiles of one colour of a checkerboard over the lattice, and how far they
//! are apart.

use crate::lattice::{lemma_flat_inverse, lemma_flat_parts, wrap};
use vstd::arithmetic::div_mod::lemma_fundamental_div_mod;
use vstd::prelude::*;

verus! {

/// A tile edge longer than the cutoff of `rc` cells.
pub fn choose_tile_edge(rc: u32) -> (edge: u32)
    requires
        rc < u32::MAX,
    ensures
        edge == (if rc + 1 > 16 {
            rc + 1
        } else {
            16
        }),
        edge > rc,
{
    if rc + 1 > 16 {
        rc + 1
    } else {
        16
    }
}

/// Where the first tile of colour `c`, one of two along an axis, would start
/// between walls, the grid shifted by `o`.
pub open spec fn first_start(l: int, o: int, c: int) -> int {
    -l + o + c * l
}

/// Where the first tile between walls starts that has cells inside.
pub open spec fn first_seen(l: int, o: int, c: int) -> int {
    if first_start(l, o, c) + l > 0 {
        first_start(l, o, c)
    } else {
        first_start(l, o, c) + 2 * l
    }
}

/// How many starts, `2 * l` apart from `from` on, are below `n`.
pub open spec fn starts_below(from: int, l: int, n: int) -> int {
    if from < n {
        (n - from - 1) / (2 * l) + 1
    } else {
        0
    }
}

/// How many tiles of a colour there are along an axis of `n` cells.
pub open spec fn tile_count(n: int, l: int, periodic: bool, o: int, c: int) -> int {
    if periodic {
        n / (2 * l)
    } else {
        starts_below(first_seen(l, o, c), l, n)
    }
}

/// Where the `i`-th tile of a colour starts along an axis of `n` cells. Every
/// other tile has this colour. On a ring only pairs of tiles that go in whole
/// are laid.
pub open spec fn tile_start(n: int, l: int, periodic: bool, o: int, c: int, i: int) -> int {
    if periodic {
        (o + c * l + 2 * l * i) % n
    } else {
        first_seen(l, o, c) + 2 * l * i
    }
}

/// The starts of all tiles of a colour along an axis.
pub open spec fn tile_starts(n: int, l: int, periodic: bool, o: int, c: int) -> Seq<int> {
    Seq::new(tile_count(n, l, periodic, o, c) as nat, |i: int| tile_start(n, l, periodic, o, c, i))
}

/// Starts that lie `2 * l` apart.
proof fn lemma_starts_below(from: int, l: int, n: int, i: int)
    requires
        l > 0,
        i >= 0,
    ensures
        from + 2 * l * i < n <==> i < starts_below(from, l, n),
        starts_below(from, l, n) >= 0,
{
    let d = 2 * l;
    if from < n {
        lemma_fundamental_div_mod(n - from - 1, d);
        let q = (n - from - 1) / d;
        let r = (n - from - 1) % d;
        assert(q >= 0) by (nonlinear_arith)
            requires
                d > 0,
                n - from - 1 >= 0,
                n - from - 1 == d * q + r,
                0 <= r < d,
        ;
        assert(d * i < n - from <==> i <= q) by (nonlinear_arith)
            requires
                d > 0,
                n - from - 1 == d * q + r,
                0 <= r < d,
        ;
    } else {
        assert(d * i >= 0) by (nonlinear_arith)
            requires
                d > 0,
                i >= 0,
        ;
    }
}

/// The starts of the tiles of a colour along an axis.
fn axis_starts(n: usize, l: u32, periodic: bool, o: i32, c: u32) -> (starts: Vec<i32>)
    requires
        n <= i32::MAX,
        0 < l <= i32::MAX,
        0 <= o < l,
        c <= 1,
    ensures
        starts@.len() == tile_count(n as int, l as int, periodic, o as int, c as int),
        forall|i: int|
            0 <= i < starts@.len() ==> #[trigger] starts@[i] == tile_start(n as int, l as int, periodic, o as int, c as int, i),
{
    let mut starts: Vec<i32> = Vec::new();
    let edge: i64 = l as i64;
    let shift: i64 = o as i64 + if c == 1 { edge } else { 0 };
    let len: i64 = n as i64;
    assert(c * l == if c == 1 { l as int } else { 0 }) by (nonlinear_arith)
        requires
            c == 0 || c == 1,
    ;
    if periodic {
        let count: i64 = len / (2 * edge);
        let mut i: i64 = 0;
        while i < count
            invariant
                0 <= i <= count,
                0 < edge == l <= i32::MAX,
                0 <= shift == o + c * l,
                shift < 2 * edge,
                len == n <= i32::MAX,
                count == len as int / (2 * edge),
                starts@.len() == i,
                forall|k: int|
                    0 <= k < i ==> #[trigger] starts@[k] == tile_start(n as int, l as int, true, o as int, c as int, k),
            decreases count - i,
        {
            proof {
                lemma_fundamental_div_mod(len as int, 2 * edge);
                assert(0 <= 2 * edge * i <= len) by (nonlinear_arith)
                    requires
                        0 <= i < count,
                        edge > 0,
                        len == 2 * edge * count + len as int % (2 * edge),
                        0 <= len as int % (2 * edge),
                ;
                assert(len > 0) by (nonlinear_arith)
                    requires
                        0 <= i < count,
                        edge > 0,
                        len == 2 * edge * count + len as int % (2 * edge),
                        0 <= len as int % (2 * edge),
                ;
                assert(c as int * l as int == c * l);
            }
            let start = wrap(shift + 2 * edge * i, len);
            starts.push(start as i32);
            i = i + 1;
        }
    } else {
        let first: i64 = -edge + shift;
        let seen: i64 = if first + edge > 0 { first } else { first + 2 * edge };
        let mut y: i64 = seen;
        let ghost mut k: int = 0;
        proof {
            lemma_starts_below(seen as int, l as int, n as int, 0);
            assert(c as int * l as int == c * l);
        }
        while y < len
            invariant
                0 < edge == l <= i32::MAX,
                len == n <= i32::MAX,
                seen == first_seen(l as int, o as int, c as int),
                -edge <= seen <= 2 * edge,
                k >= 0,
                seen <= y,
                y == seen + 2 * l * k,
                starts@.len() == k,
                k <= starts_below(seen as int, l as int, n as int),
                forall|i: int|
                    0 <= i < k ==> #[trigger] starts@[i] == tile_start(n as int, l as int, false, o as int, c as int, i),
            decreases starts_below(seen as int, l as int, n as int) - k,
        {
            proof {
                lemma_starts_below(seen as int, l as int, n as int, k);
                lemma_starts_below(seen as int, l as int, n as int, k + 1);
                assert(2 * l * (k + 1) == 2 * l * k + 2 * l) by (nonlinear_arith);
            }
            starts.push(y as i32);
            y = y + 2 * edge;
            proof {
                k = k + 1;
            }
        }
        proof {
            lemma_starts_below(seen as int, l as int, n as int, k);
        }
    }
    starts
}

/// The corners of all tiles of one of the four colours, row by row, no more of
/// them than there is room for.
pub fn tiles_for_colour(
    h: usize,
    w: usize,
    periodic: bool,
    edge: u32,
    max_tiles: u32,
    colour: u32,
    oy: i32,
    ox: i32,
) -> (r: (Vec<i32>, Vec<i32>))
    requires
        h <= i32::MAX,
        w <= i32::MAX,
        0 < edge <= i32::MAX,
        0 <= oy < edge,
        0 <= ox < edge,
        colour < 4,
    ensures
        ({
            let ys = tile_starts(h as int, edge as int, periodic, oy as int, (colour % 2) as int);
            let xs = tile_starts(w as int, edge as int, periodic, ox as int, (colour / 2) as int);
            let all = ys.len() * xs.len();
            &&& r.0@.len() == (if all < max_tiles { all as int } else { max_tiles as int })
            &&& r.1@.len() == r.0@.len()
            &&& forall|k: int| 0 <= k < r.0@.len() ==> #[trigger] r.0@[k] == ys[k / xs.len() as int]
            &&& forall|k: int| 0 <= k < r.1@.len() ==> #[trigger] r.1@[k] == xs[k % xs.len() as int]
        }),
{
    let ys = axis_starts(h, edge, periodic, oy, colour % 2);
    let xs = axis_starts(w, edge, periodic, ox, colour / 2);
    let ghost all = ys@.len() * xs@.len();
    let mut gy: Vec<i32> = Vec::new();
    let mut gx: Vec<i32> = Vec::new();
    let n = xs.len();
    let mut i: usize = 0;
    while i < ys.len()
        invariant
            i <= ys@.len(),
            n == xs@.len(),
            all == ys@.len() * n,
            gy@.len() == gx@.len(),
            gy@.len() == (if i * n < max_tiles { i * n } else { max_tiles as int }),
            forall|k: int| 0 <= k < gy@.len() ==> #[trigger] gy@[k] == ys@[k / n as int],
            forall|k: int| 0 <= k < gx@.len() ==> #[trigger] gx@[k] == xs@[k % n as int],
        decreases ys@.len() - i,
    {
        let mut j: usize = 0;
        while j < n
            invariant
                i < ys@.len(),
                j <= n,
                n == xs@.len(),
                gy@.len() == gx@.len(),
                gy@.len() == (if i * n + j < max_tiles { i * n + j } else { max_tiles as int }),
                forall|k: int| 0 <= k < gy@.len() ==> #[trigger] gy@[k] == ys@[k / n as int],
                forall|k: int| 0 <= k < gx@.len() ==> #[trigger] gx@[k] == xs@[k % n as int],
            decreases n - j,
        {
            if (gy.len() as u64) < max_tiles as u64 {
                proof {
                    lemma_flat_parts(n as int, i as int, j as int);
                }
                gy.push(ys[i]);
                gx.push(xs[j]);
            }
            j = j + 1;
        }
        proof {
            assert((i + 1) * n == i * n + n) by (nonlinear_arith);
        }
        i = i + 1;
    }
    proof {
        let ls = tile_starts(h as int, edge as int, periodic, oy as int, (colour % 2) as int);
        let cs = tile_starts(w as int, edge as int, periodic, ox as int, (colour / 2) as int);
        assert(ls.len() == ys@.len() && cs.len() == n);
        assert forall|k: int| 0 <= k < gy@.len() implies #[trigger] gy@[k] == ls[k / n as int] by {
            lemma_flat_inverse(ys@.len() as int, n as int, k);
        }
        assert forall|k: int| 0 <= k < gx@.len() implies #[trigger] gx@[k] == cs[k % n as int] by {
            lemma_flat_inverse(ys@.len() as int, n as int, k);
        }
    }
    (gy, gx)
}

/// How many tiles of a colour room is made for.
pub open spec fn tile_budget(h: int, w: int, l: int) -> int {
    ((h + 2 * l - 1) / (2 * l) + 1) * ((w + 2 * l - 1) / (2 * l) + 1)
}

/// The tiles along one axis are no more than room is made for.
proof fn lemma_axis_has_room(n: int, l: int, periodic: bool, o: int, c: int)
    requires
        l > 0,
        n >= 0,
        0 <= o < l,
        0 <= c <= 1,
    ensures
        0 <= tile_count(n, l, periodic, o, c) <= (n + 2 * l - 1) / (2 * l) + 1,
{
    let d = 2 * l;
    let room = (n + d - 1) / d;
    lemma_fundamental_div_mod(n + d - 1, d);
    let r = (n + d - 1) % d;
    if periodic {
        lemma_fundamental_div_mod(n, d);
        assert(0 <= n / d <= room) by (nonlinear_arith)
            requires
                d > 0,
                n >= 0,
                n == d * (n / d) + n % d,
                0 <= n % d < d,
                n + d - 1 == d * room + r,
                0 <= r < d,
        ;
    } else {
        let from = first_seen(l, o, c);
        assert(c * l == 0 || c * l == l) by (nonlinear_arith)
            requires
                c == 0 || c == 1,
        ;
        assert(from > -l);
        let k = starts_below(from, l, n);
        lemma_starts_below(from, l, n, 0);
        if k > room + 1 {
            lemma_starts_below(from, l, n, room + 1);
            assert(d * (room + 1) >= n + d) by (nonlinear_arith)
                requires
                    d > 0,
                    n + d - 1 == d * room + r,
                    0 <= r < d,
            ;
            assert(room + 1 >= 0) by (nonlinear_arith)
                requires
                    d > 0,
                    n >= 0,
                    n + d - 1 == d * room + r,
                    0 <= r < d,
            ;
        }
        assert(room >= 0) by (nonlinear_arith)
            requires
                d > 0,
                n >= 0,
                n + d - 1 == d * room + r,
                0 <= r < d,
        ;
    }
}

/// There is room for all tiles of a colour, however the grid is shifted: none
/// is ever left out.
pub proof fn law_all_tiles_have_room(h: int, w: int, l: int, periodic: bool, colour: int, oy: int, ox: int)
    requires
        l > 0,
        h >= 0,
        w >= 0,
        0 <= oy < l,
        0 <= ox < l,
        0 <= colour < 4,
    ensures
        tile_starts(h, l, periodic, oy, colour % 2).len() * tile_starts(w, l, periodic, ox, colour / 2).len() <= tile_budget(
            h,
            w,
            l,
        ),
{
    lemma_axis_has_room(h, l, periodic, oy, colour % 2);
    lemma_axis_has_room(w, l, periodic, ox, colour / 2);
    let a = tile_starts(h, l, periodic, oy, colour % 2).len() as int;
    let b = tile_starts(w, l, periodic, ox, colour / 2).len() as int;
    let c = (h + 2 * l - 1) / (2 * l) + 1;
    let d = (w + 2 * l - 1) / (2 * l) + 1;
    assert(a * b <= c * d) by (nonlinear_arith)
        requires
            0 <= a <= c,
            0 <= b <= d,
    ;
}

/// How far two lines are apart: the plain distance between walls, the shorter
/// way around on a ring of `n`.
pub open spec fn line_distance(a: int, b: int, n: int, periodic: bool) -> int {
    let up = (a - b) % n;
    let down = (b - a) % n;
    if periodic {
        if up < down {
            up
        } else {
            down
        }
    } else if a < b {
        b - a
    } else {
        a - b
    }
}

/// Line `a` belongs to the tile of `l` lines that starts at `start`.
pub open spec fn in_tile(a: int, start: int, l: int, n: int, periodic: bool) -> bool {
    if periodic {
        0 <= a < n && (a - start) % n < l
    } else {
        start <= a < start + l
    }
}

/// Around a ring, a line of the tile that starts at `o + 2 * l * i` is at a
/// place below the next tile.
proof fn lemma_ring_place(n: int, l: int, o: int, i: int, a: int) -> (t: int)
    requires
        n > 0,
        in_tile(a, (o + 2 * l * i) % n, l, n, true),
    ensures
        0 <= t < l,
        (a - (o + 2 * l * i + t)) % n == 0,
{
    let s = o + 2 * l * i;
    let t = (a - s % n) % n;
    lemma_fundamental_div_mod(s, n);
    lemma_fundamental_div_mod(a - s % n, n);
    let q = (a - s % n) / n - s / n;
    assert(a - (s + t) == n * q) by (nonlinear_arith)
        requires
            s == n * (s / n) + s % n,
            a - s % n == n * ((a - s % n) / n) + t,
            q == (a - s % n) / n - s / n,
    ;
    vstd::arithmetic::div_mod::lemma_mod_multiples_basic(q, n);
    assert(n * q == q * n) by (nonlinear_arith);
    t
}

/// Lines that differ by `d` up to whole turns have `d` as their step.
proof fn lemma_step_around(a: int, b: int, n: int, d: int)
    requires
        n > 0,
        0 <= d < n,
        (a - b - d) % n == 0,
    ensures
        (a - b) % n == d,
        d > 0 ==> (b - a) % n == n - d,
{
    lemma_fundamental_div_mod(a - b - d, n);
    let q = (a - b - d) / n;
    assert(a - b == q * n + d) by (nonlinear_arith)
        requires
            a - b - d == n * q + 0,
    ;
    vstd::arithmetic::div_mod::lemma_fundamental_div_mod_converse(a - b, n, q, d);
    if d > 0 {
        assert(b - a == (-q - 1) * n + (n - d)) by (nonlinear_arith)
            requires
                a - b == q * n + d,
        ;
        vstd::arithmetic::div_mod::lemma_fundamental_div_mod_converse(b - a, n, -q - 1, n - d);
    }
}

/// Tiles of one colour are a tile apart: a line of one and a line of another
/// are further from one another than an edge.
pub proof fn law_tiles_of_a_colour_are_apart(n: int, l: int, periodic: bool, o: int, c: int, i: int, j: int, a: int, b: int)
    requires
        l > 0,
        0 <= i < tile_count(n, l, periodic, o, c),
        0 <= j < tile_count(n, l, periodic, o, c),
        i != j,
        in_tile(a, tile_start(n, l, periodic, o, c, i), l, n, periodic),
        in_tile(b, tile_start(n, l, periodic, o, c, j), l, n, periodic),
    ensures
        line_distance(a, b, n, periodic) > l,
{
    if i < j {
        lemma_apart(n, l, periodic, o, c, i, j, a, b);
    } else {
        lemma_apart(n, l, periodic, o, c, j, i, b, a);
    }
}

proof fn lemma_apart(n: int, l: int, periodic: bool, o: int, c: int, i: int, j: int, a: int, b: int)
    requires
        l > 0,
        0 <= i < j < tile_count(n, l, periodic, o, c),
        in_tile(a, tile_start(n, l, periodic, o, c, i), l, n, periodic),
        in_tile(b, tile_start(n, l, periodic, o, c, j), l, n, periodic),
    ensures
        line_distance(a, b, n, periodic) > l,
        line_distance(b, a, n, periodic) > l,
{
    let d = 2 * l;
    assert(d * j - d * i == d * (j - i)) by (nonlinear_arith);
    assert(d * (j - i) >= d) by (nonlinear_arith)
        requires
            d > 0,
            j - i >= 1,
    ;
    if periodic {
        let m = n / d;
        lemma_fundamental_div_mod(n, d);
        assert(n > 0 && d * (j - i) <= n - d) by (nonlinear_arith)
            requires
                d > 0,
                n == d * m + n % d,
                0 <= n % d,
                0 <= i < j < m,
        ;
        let base = o + c * l;
        let ta = lemma_ring_place(n, l, base, i, a);
        let tb = lemma_ring_place(n, l, base, j, b);
        let step = d * (j - i) + tb - ta;
        lemma_fundamental_div_mod(a - (base + d * i + ta), n);
        lemma_fundamental_div_mod(b - (base + d * j + tb), n);
        let (qa, qb) = ((a - (base + d * i + ta)) / n, (b - (base + d * j + tb)) / n);
        assert(b - a - step == (qb - qa) * n) by (nonlinear_arith)
            requires
                a - (base + d * i + ta) == n * qa + 0,
                b - (base + d * j + tb) == n * qb + 0,
                step == d * (j - i) + tb - ta,
        ;
        vstd::arithmetic::div_mod::lemma_mod_multiples_basic(qb - qa, n);
        lemma_step_around(b, a, n, step);
    }
}

/// Tiles of one colour can be worked on at once: of two cells in different
/// tiles, some coordinates differ by more than the cutoff of `rc` cells, which
/// is shorter than an edge.
pub proof fn law_tiles_of_a_colour_do_not_interact(
    h: int,
    w: int,
    l: int,
    periodic: bool,
    colour: int,
    oy: int,
    ox: int,
    rc: int,
    i: int,
    j: int,
    k: int,
    m: int,
    a: (int, int),
    b: (int, int),
)
    requires
        0 <= rc < l,
        0 <= i < tile_count(h, l, periodic, oy, colour % 2),
        0 <= k < tile_count(h, l, periodic, oy, colour % 2),
        0 <= j < tile_count(w, l, periodic, ox, colour / 2),
        0 <= m < tile_count(w, l, periodic, ox, colour / 2),
        (i, j) != (k, m),
        in_tile(a.0, tile_start(h, l, periodic, oy, colour % 2, i), l, h, periodic),
        in_tile(a.1, tile_start(w, l, periodic, ox, colour / 2, j), l, w, periodic),
        in_tile(b.0, tile_start(h, l, periodic, oy, colour % 2, k), l, h, periodic),
        in_tile(b.1, tile_start(w, l, periodic, ox, colour / 2, m), l, w, periodic),
    ensures
        line_distance(a.0, b.0, h, periodic) > rc || line_distance(a.1, b.1, w, periodic) > rc,
{
    if i != k {
        law_tiles_of_a_colour_are_apart(h, l, periodic, oy, colour % 2, i, k, a.0, b.0);
    } else {
        law_tiles_of_a_colour_are_apart(w, l, periodic, ox, colour / 2, j, m, a.1, b.1);
    }
}

/// Line `a` belongs to the `i`-th tile of colour `c` along an axis.
pub open spec fn tile_of(a: int, n: int, l: int, o: int, c: int, i: int) -> bool {
    0 <= i < tile_count(n, l, false, o, c) && in_tile(a, tile_start(n, l, false, o, c, i), l, n, false)
}

/// Between walls the tiles of both colours along an axis share its cells out:
/// each belongs to one tile.
pub proof fn law_tiles_share_out_the_lattice(n: int, l: int, o: int, a: int)
    requires
        l > 0,
        0 <= o < l,
        0 <= a < n,
    ensures
        exists|c: int, i: int| 0 <= c <= 1 && #[trigger] tile_of(a, n, l, o, c, i),
        forall|c: int, i: int, d: int, j: int|
            0 <= c <= 1 && 0 <= d <= 1 && #[trigger] tile_of(a, n, l, o, c, i) && #[trigger] tile_of(a, n, l, o, d, j) ==> c == d
                && i == j,
{
    // Tiles of both colours together start every `l` lines from `o - l` on.
    let q = (a - o + l) / l;
    lemma_fundamental_div_mod(a - o + l, l);
    let r = (a - o + l) % l;
    assert(q >= 0) by (nonlinear_arith)
        requires
            l > 0,
            a - o + l > 0,
            a - o + l == l * q + r,
            0 <= r < l,
    ;
    let c = q % 2;
    let seen = first_seen(l, o, c);
    assert(c * l == 0 || c * l == l) by (nonlinear_arith)
        requires
            c == 0 || c == 1,
    ;
    let skipped: int = if first_start(l, o, c) + l > 0 { 0 } else { 1 };
    let i = q / 2 - skipped;
    assert(q == 2 * (q / 2) + c);
    assert(l * q == 2 * l * (q / 2) + c * l) by (nonlinear_arith)
        requires
            q == 2 * (q / 2) + c,
    ;
    assert(2 * l * i == 2 * l * (q / 2) - 2 * l * skipped) by (nonlinear_arith)
        requires
            i == q / 2 - skipped,
    ;
    assert(seen + 2 * l * i == o - l + l * q);
    if skipped == 1 {
        assert(c == 0 && o == 0);
        assert(q >= 1) by (nonlinear_arith)
            requires
                l > 0,
                l * q + r >= l,
                0 <= r < l,
        ;
        assert(q / 2 >= 1) by {
            assert(q % 2 == 0);
        }
    }
    lemma_starts_below(seen, l, n, i);
    assert(tile_of(a, n, l, o, c, i));
    assert forall|c: int, i: int, d: int, j: int|
        0 <= c <= 1 && 0 <= d <= 1 && #[trigger] tile_of(a, n, l, o, c, i) && #[trigger] tile_of(a, n, l, o, d, j) implies c == d && i
        == j by {
        lemma_one_tile(n, l, o, a, c, i, d, j);
    }
}

/// A line between walls does not belong to two tiles.
proof fn lemma_one_tile(n: int, l: int, o: int, a: int, c: int, i: int, d: int, j: int)
    requires
        l > 0,
        0 <= o < l,
        0 <= c <= 1,
        0 <= d <= 1,
        tile_of(a, n, l, o, c, i),
        tile_of(a, n, l, o, d, j),
    ensures
        c == d,
        i == j,
{
    let sc: int = if first_start(l, o, c) + l > 0 { 0 } else { 1 };
    let sd: int = if first_start(l, o, d) + l > 0 { 0 } else { 1 };
    assert(c * l == 0 || c * l == l) by (nonlinear_arith)
        requires
            c == 0 || c == 1,
    ;
    assert(d * l == 0 || d * l == l) by (nonlinear_arith)
        requires
            d == 0 || d == 1,
    ;
    let (x, y) = (c + 2 * sc + 2 * i, d + 2 * sd + 2 * j);
    assert(tile_start(n, l, false, o, c, i) == o - l + l * x) by (nonlinear_arith)
        requires
            x == c + 2 * sc + 2 * i,
            tile_start(n, l, false, o, c, i) == -l + o + c * l + 2 * l * sc + 2 * l * i,
    ;
    assert(tile_start(n, l, false, o, d, j) == o - l + l * y) by (nonlinear_arith)
        requires
            y == d + 2 * sd + 2 * j,
            tile_start(n, l, false, o, d, j) == -l + o + d * l + 2 * l * sd + 2 * l * j,
    ;
    assert(x == y) by (nonlinear_arith)
        requires
            -l < l * x - l * y < l,
            l > 0,
    ;
}

/// Around a ring the tiles are laid from `o` on, the two colours by turns: the `i`-th
/// of colour `c` has the lines that come `2 * i + c` edges after `o`, and there are as
/// many pairs of tiles as go in whole.
pub proof fn law_tiles_are_laid_around_a_ring(n: int, l: int, o: int, c: int, i: int, a: int)
    requires
        l > 0,
        n > 0,
        0 <= c <= 1,
        0 <= i < tile_count(n, l, true, o, c),
        0 <= a < n,
    ensures
        in_tile(a, tile_start(n, l, true, o, c, i), l, n, true) <==> (2 * i + c) * l <= (a - o) % n < (2 * i + c + 1) * l,
        2 * l * tile_count(n, l, true, o, c) <= n < 2 * l * (tile_count(n, l, true, o, c) + 1),
{
    let d = 2 * l;
    let m = tile_count(n, l, true, o, c);
    lemma_fundamental_div_mod(n, d);
    assert(d * (m + 1) == d * m + d) by (nonlinear_arith);
    let k = (2 * i + c) * l;
    assert(k == c * l + 2 * l * i && 0 <= k) by (nonlinear_arith)
        requires
            k == (2 * i + c) * l,
            i >= 0,
            c >= 0,
            l > 0,
    ;
    assert((2 * i + c + 1) * l == k + l) by (nonlinear_arith)
        requires
            k == (2 * i + c) * l,
    ;
    assert(k + l <= n) by (nonlinear_arith)
        requires
            k == (2 * i + c) * l,
            0 <= i < m,
            0 <= c <= 1,
            l > 0,
            2 * l * m <= n,
    ;
    let r = (a - o) % n;
    // The tile starts at `o + k`, and `a` is `r - k` lines on.
    let start = (o + k) % n;
    lemma_fundamental_div_mod(o + k, n);
    lemma_fundamental_div_mod(a - o, n);
    let turns = (o + k) / n + (a - o) / n;
    assert(a - start == r - k + n * turns) by (nonlinear_arith)
        requires
            o + k == n * ((o + k) / n) + start,
            a - o == n * ((a - o) / n) + r,
            turns == (o + k) / n + (a - o) / n,
    ;
    vstd::arithmetic::div_mod::lemma_mod_multiples_vanish(turns, r - k, n);
    assert((a - start) % n == (r - k) % n);
    if r >= k {
        vstd::arithmetic::div_mod::lemma_small_mod((r - k) as nat, n as nat);
    } else {
        vstd::arithmetic::div_mod::lemma_mod_add_multiples_vanish(r - k, n);
        vstd::arithmetic::div_mod::lemma_small_mod((r - k + n) as nat, n as nat);
    }
}

/// Between walls the tiles are laid from `o` on, both ways, the two colours by turns:
/// of colour one are those that come an even number of edges from `o`.
pub proof fn law_tiles_are_laid_between_walls(n: int, l: int, o: int, c: int, i: int, a: int)
    requires
        l > 0,
        0 <= c <= 1,
        0 <= i < tile_count(n, l, false, o, c),
        in_tile(a, tile_start(n, l, false, o, c, i), l, n, false),
    ensures
        tile_start(n, l, false, o, c, i) == o + l * ((a - o) / l),
        ((a - o) / l) % 2 == 1 - c,
{
    let start = tile_start(n, l, false, o, c, i);
    let skipped: int = if first_start(l, o, c) + l > 0 {
        0
    } else {
        1
    };
    let q = 2 * (i + skipped) + c - 1;
    assert(start == o + l * q) by (nonlinear_arith)
        requires
            start == -l + o + c * l + 2 * l * skipped + 2 * l * i,
            q == 2 * (i + skipped) + c - 1,
    ;
    vstd::arithmetic::div_mod::lemma_fundamental_div_mod_converse(a - o, l, q, a - start);
}

} // verus!

//! Rectangular patches laid over the lattice.

use crate::lattice::{flat, grid, lemma_flat_bound, lemma_flat_injective, lemma_same_turn, wrap};
use vstd::arithmetic::div_mod::lemma_small_mod;
use vstd::prelude::*;

verus! {

/// Where a patch comes to lie: patch cell `(sy + i, sx + j)` falls on lattice
/// cell `(rows[i], cols[j])`.
#[derive(Debug)]
pub struct Placement {
    pub rows: Vec<usize>,
    pub cols: Vec<usize>,
    pub sy: usize,
    pub sy_end: usize,
    pub sx: usize,
    pub sx_end: usize,
}

/// The lattice lines that `lines` names are below `n`, each named once.
pub open spec fn distinct_below(lines: Seq<usize>, n: int) -> bool {
    &&& forall|i: int| 0 <= i < lines.len() ==> #[trigger] lines[i] < n
    &&& forall|i: int, j: int| 0 <= i < j < lines.len() ==> lines[i] != lines[j]
}

impl Placement {
    /// Every cell of the part of a `ph` by `pw` patch that is placed falls on a
    /// cell of its own of an `h` by `w` lattice.
    pub open spec fn fits(self, ph: int, pw: int, h: int, w: int) -> bool {
        &&& self.sy <= self.sy_end <= ph
        &&& self.sx <= self.sx_end <= pw
        &&& self.rows@.len() == self.sy_end - self.sy
        &&& self.cols@.len() == self.sx_end - self.sx
        &&& distinct_below(self.rows@, h)
        &&& distinct_below(self.cols@, w)
    }
}

/// The first patch line, of those from lattice line `at` on, that lies between
/// the walls.
pub open spec fn first_inside(at: int) -> int {
    if at < 0 {
        -at
    } else {
        0
    }
}

/// The end of the patch lines, of the `len` from lattice line `at` on, that lie
/// between the walls of a lattice of `n` lines.
pub open spec fn end_inside(at: int, len: int, n: int) -> int {
    if at + len < n {
        len
    } else {
        n - at
    }
}

/// A patch of `ph` by `pw` cells whose corner lies at `(y0, x0)` has a place on
/// the lattice: on a torus it is no larger than the torus, between walls some
/// of it is inside.
pub open spec fn has_place(y0: int, x0: int, ph: int, pw: int, h: int, w: int, periodic: bool) -> bool {
    if periodic {
        ph <= h && pw <= w
    } else {
        &&& first_inside(y0) < end_inside(y0, ph, h)
        &&& first_inside(x0) < end_inside(x0, pw, w)
    }
}

/// A run of consecutive lines around a ring of `n`.
fn ring_lines(at: i64, len: usize, n: usize) -> (lines: Vec<usize>)
    requires
        len <= n <= i64::MAX,
        at + len <= i64::MAX,
    ensures
        lines@.len() == len,
        forall|i: int| 0 <= i < len ==> #[trigger] lines@[i] == (at + i) % n as int,
        distinct_below(lines@, n as int),
{
    let mut lines: Vec<usize> = Vec::with_capacity(len);
    let mut i: usize = 0;
    while i < len
        invariant
            i <= len <= n <= i64::MAX,
            at + len <= i64::MAX,
            lines@.len() == i,
            forall|k: int| 0 <= k < i ==> #[trigger] lines@[k] == (at + k) % n as int && lines@[k] < n,
        decreases len - i,
    {
        lines.push(wrap(at + i as i64, n as i64) as usize);
        i = i + 1;
    }
    proof {
        assert forall|i: int, j: int| 0 <= i < j < lines@.len() implies lines@[i] != lines@[j] by {
            lemma_ring_distinct(at + i, at + j, n as int);
        }
    }
    lines
}

/// Lines less than a turn apart do not coincide on a ring.
proof fn lemma_ring_distinct(a: int, b: int, n: int)
    requires
        a < b < a + n,
    ensures
        a % n != b % n,
{
    if a % n == b % n {
        lemma_same_turn(b, a, n);
    }
}

/// A run of consecutive lines.
pub(crate) fn plain_lines(from: usize, to: usize) -> (lines: Vec<usize>)
    requires
        from <= to,
    ensures
        lines@.len() == to - from,
        forall|i: int| 0 <= i < to - from ==> #[trigger] lines@[i] == from + i,
        distinct_below(lines@, to as int),
{
    let mut lines: Vec<usize> = Vec::with_capacity(to - from);
    let mut line: usize = from;
    while line < to
        invariant
            from <= line <= to,
            lines@.len() == line - from,
            forall|i: int| 0 <= i < line - from ==> #[trigger] lines@[i] == from + i,
        decreases to - line,
    {
        lines.push(line);
        line = line + 1;
    }
    lines
}

/// Places a patch of `ph` by `pw` cells, whose corner lies at `(y0, x0)`, on a
/// lattice of `h` by `w` cells. `None` if it misses the lattice, or would fall
/// onto itself on a torus that is too small for it.
pub fn patch_index(y0: i64, x0: i64, ph: usize, pw: usize, h: usize, w: usize, periodic: bool) -> (r: Option<Placement>)
    requires
        h <= i64::MAX,
        w <= i64::MAX,
        y0 + ph <= i64::MAX,
        x0 + pw <= i64::MAX,
        ph <= i64::MAX,
        pw <= i64::MAX,
    ensures
        r is Some <==> has_place(y0 as int, x0 as int, ph as int, pw as int, h as int, w as int, periodic),
        r matches Some(p) ==> {
            &&& p.fits(ph as int, pw as int, h as int, w as int)
            &&& p.sy == (if periodic { 0 } else { first_inside(y0 as int) })
            &&& p.sx == (if periodic { 0 } else { first_inside(x0 as int) })
            &&& p.sy_end == (if periodic { ph as int } else { end_inside(y0 as int, ph as int, h as int) })
            &&& p.sx_end == (if periodic { pw as int } else { end_inside(x0 as int, pw as int, w as int) })
            &&& forall|i: int| 0 <= i < p.rows@.len() ==> #[trigger] p.rows@[i] == (y0 + p.sy + i) % h as int
            &&& forall|j: int| 0 <= j < p.cols@.len() ==> #[trigger] p.cols@[j] == (x0 + p.sx + j) % w as int
        },
{
    if periodic {
        if ph > h || pw > w {
            return None;
        }
        let rows = ring_lines(y0, ph, h);
        let cols = ring_lines(x0, pw, w);
        return Some(Placement { rows, cols, sy: 0, sy_end: ph, sx: 0, sx_end: pw });
    }
    let ry0: i64 = if y0 > 0 { y0 } else { 0 };
    let rx0: i64 = if x0 > 0 { x0 } else { 0 };
    let ry1: i64 = if y0 + (ph as i64) < h as i64 { y0 + ph as i64 } else { h as i64 };
    let rx1: i64 = if x0 + (pw as i64) < w as i64 { x0 + pw as i64 } else { w as i64 };
    if ry0 >= ry1 || rx0 >= rx1 {
        return None;
    }
    let sy = (ry0 - y0) as usize;
    let sx = (rx0 - x0) as usize;
    let rows = plain_lines(ry0 as usize, ry1 as usize);
    let cols = plain_lines(rx0 as usize, rx1 as usize);
    proof {
        assert forall|i: int| 0 <= i < rows@.len() implies #[trigger] rows@[i] == (y0 + sy + i) % h as int by {
            lemma_small_mod((y0 + sy + i) as nat, h as nat);
        }
        assert forall|j: int| 0 <= j < cols@.len() implies #[trigger] cols@[j] == (x0 + sx + j) % w as int by {
            lemma_small_mod((x0 + sx + j) as nat, w as nat);
        }
    }
    Some(
        Placement {
            rows,
            cols,
            sy,
            sy_end: sy + (ry1 - ry0) as usize,
            sx,
            sx_end: sx + (rx1 - rx0) as usize,
        },
    )
}

/// The part of a patch of `sh` by `sw` cells that is placed.
pub fn slice_patch<T: Copy>(src: &Vec<T>, sh: usize, sw: usize, place: &Placement) -> (part: Vec<T>)
    requires
        src@.len() == sh * sw,
        place.sy <= place.sy_end <= sh,
        place.sx <= place.sx_end <= sw,
    ensures
        part@.len() == (place.sy_end - place.sy) * (place.sx_end - place.sx),
        forall|i: int, j: int|
            0 <= i < place.sy_end - place.sy && 0 <= j < place.sx_end - place.sx ==> #[trigger] part@[flat(
                place.sx_end - place.sx,
                i,
                j,
            )] == src@[flat(sw as int, place.sy + i, place.sx + j)],
{
    let ph = place.sy_end - place.sy;
    let pw = place.sx_end - place.sx;
    let (sy, sx) = (place.sy, place.sx);
    let cells = src.len();
    proof {
        assert(ph * pw <= sh * sw) by (nonlinear_arith)
            requires
                0 <= ph <= sh,
                0 <= pw <= sw,
        ;
    }
    let take = |i: usize, j: usize| -> (v: T)
        requires
            i < ph,
            j < pw,
            cells == sh * sw,
            src@.len() == cells,
            sy + ph <= sh,
            sx + pw <= sw,
        ensures
            v == src@[flat(sw as int, sy + i, sx + j)],
        {
            proof {
                lemma_flat_bound(sh as int, sw as int, sy + i, sx + j);
            }
            src[(sy + i) * sw + (sx + j)]
        };
    let part = grid(ph, pw, &take);
    proof {
        assert forall|i: int, j: int| 0 <= i < ph && 0 <= j < pw implies #[trigger] part@[flat(pw as int, i, j)] == src@[flat(
            sw as int,
            sy + i,
            sx + j,
        )] by {
            assert(take.ensures((i as usize, j as usize), part@[flat(pw as int, i as usize as int, j as usize as int)]));
        }
    }
    part
}

/// A patch that lies on the lattice: its cell `(i, j)` on lattice cell
/// `(rows[i], cols[j])`.
#[derive(Debug)]
pub struct Laid<T> {
    pub rows: Vec<usize>,
    pub cols: Vec<usize>,
    pub cells: Vec<T>,
}

impl<T> Laid<T> {
    /// Every cell of the patch lies on a cell of its own of an `h` by `w`
    /// lattice.
    pub open spec fn wf(self, h: int, w: int) -> bool {
        &&& distinct_below(self.rows@, h)
        &&& distinct_below(self.cols@, w)
        &&& self.cells@.len() == self.rows@.len() * self.cols@.len()
    }

    /// The place of the lattice cell under patch cell `(i, j)`.
    pub open spec fn under(self, w: int, i: int, j: int) -> int {
        flat(w, self.rows@[i] as int, self.cols@[j] as int)
    }

    /// What patch cell `(i, j)` holds.
    pub open spec fn at(self, i: int, j: int) -> T {
        self.cells@[flat(self.cols@.len() as int, i, j)]
    }

    pub open spec fn has(self, i: int, j: int) -> bool {
        0 <= i < self.rows@.len() && 0 <= j < self.cols@.len()
    }

    /// Lattice cell `c` lies under the patch.
    pub open spec fn covers(self, w: int, c: int) -> bool {
        exists|i: int, j: int| #[trigger] self.has(i, j) && self.under(w, i, j) == c
    }
}

/// `after` is `before` with each cell under the patch changed by a `step` that
/// takes up what the patch holds there, and the other cells left.
pub open spec fn merged<T, U>(step: spec_fn(T, U, T) -> bool, w: int, laid: Laid<U>, before: Seq<T>, after: Seq<T>) -> bool {
    &&& after.len() == before.len()
    &&& forall|i: int, j: int| #[trigger]
        laid.has(i, j) ==> step(before[laid.under(w, i, j)], laid.at(i, j), after[laid.under(w, i, j)])
    &&& forall|c: int| 0 <= c < before.len() && !laid.covers(w, c) ==> #[trigger] after[c] == before[c]
}

/// Two cells of a patch do not lie on one lattice cell.
pub proof fn lemma_under_distinct<T>(laid: Laid<T>, h: int, w: int, i: int, j: int, k: int, l: int)
    requires
        laid.wf(h, w),
        laid.has(i, j),
        laid.has(k, l),
        laid.under(w, i, j) == laid.under(w, k, l),
    ensures
        i == k,
        j == l,
{
    let (a, b) = (laid.rows@[i], laid.rows@[k]);
    let (c, d) = (laid.cols@[j], laid.cols@[l]);
    lemma_flat_injective(w, a as int, c as int, b as int, d as int);
}

/// Changes each lattice cell under the patch by `f`.
pub(crate) fn merge<T: Copy, U: Copy, F: Fn(T, U) -> T>(
    target: &mut Vec<T>,
    h: usize,
    w: usize,
    laid: &Laid<U>,
    f: &F,
    Ghost(step): Ghost<spec_fn(T, U, T) -> bool>,
)
    requires
        old(target)@.len() == h * w,
        laid.wf(h as int, w as int),
        forall|a: T, b: U| #[trigger] f.requires((a, b)),
        forall|a: T, b: U, r: T| #[trigger] f.ensures((a, b), r) ==> step(a, b, r),
    ensures
        merged(step, w as int, *laid, old(target)@, final(target)@),
{
    let ghost before = target@;
    let n = laid.cols.len();
    let size = laid.cells.len();
    let cells = target.len();
    let mut i: usize = 0;
    while i < laid.rows.len()
        invariant
            i <= laid.rows@.len(),
            n == laid.cols@.len(),
            size == laid.rows@.len() * n,
            cells == h * w,
            before.len() == h * w,
            target@.len() == h * w,
            laid.wf(h as int, w as int),
            forall|a: T, b: U| #[trigger] f.requires((a, b)),
            forall|a: T, b: U, r: T| #[trigger] f.ensures((a, b), r) ==> step(a, b, r),
            forall|k: int, l: int| #[trigger]
                laid.has(k, l) ==> {
                    let c = laid.under(w as int, k, l);
                    if k < i {
                        step(before[c], laid.at(k, l), target@[c])
                    } else {
                        target@[c] == before[c]
                    }
                },
            forall|c: int| 0 <= c < h * w && !laid.covers(w as int, c) ==> #[trigger] target@[c] == before[c],
        decreases laid.rows@.len() - i,
    {
        let row = laid.rows[i];
        let mut j: usize = 0;
        while j < n
            invariant
                i < laid.rows@.len(),
                row == laid.rows@[i as int],
                j <= n == laid.cols@.len(),
                size == laid.rows@.len() * n,
                size == laid.cells@.len(),
                cells == h * w,
                before.len() == h * w,
                target@.len() == h * w,
                laid.wf(h as int, w as int),
                forall|a: T, b: U| #[trigger] f.requires((a, b)),
                forall|a: T, b: U, r: T| #[trigger] f.ensures((a, b), r) ==> step(a, b, r),
                forall|k: int, l: int| #[trigger]
                    laid.has(k, l) ==> {
                        let c = laid.under(w as int, k, l);
                        if k < i || k == i && l < j {
                            step(before[c], laid.at(k, l), target@[c])
                        } else {
                            target@[c] == before[c]
                        }
                    },
                forall|c: int| 0 <= c < h * w && !laid.covers(w as int, c) ==> #[trigger] target@[c] == before[c],
            decreases n - j,
        {
            let col = laid.cols[j];
            proof {
                assert(laid.has(i as int, j as int));
                lemma_flat_bound(h as int, w as int, row as int, col as int);
                lemma_flat_bound(laid.rows@.len() as int, n as int, i as int, j as int);
            }
            let c = row * w + col;
            let ghost prior = target@;
            let v = f(target[c], laid.cells[i * n + j]);
            target.set(c, v);
            proof {
                assert(laid.covers(w as int, c as int));
                assert forall|k: int, l: int| #[trigger] laid.has(k, l) implies {
                    let c = laid.under(w as int, k, l);
                    if k < i || k == i && l < j + 1 {
                        step(before[c], laid.at(k, l), target@[c])
                    } else {
                        target@[c] == before[c]
                    }
                } by {
                    let b = laid.under(w as int, k, l);
                    lemma_flat_bound(h as int, w as int, laid.rows@[k] as int, laid.cols@[l] as int);
                    if b == c {
                        lemma_under_distinct(*laid, h as int, w as int, k, l, i as int, j as int);
                    } else {
                        assert(target@[b] == prior[b]);
                    }
                }
            }
            j = j + 1;
        }
        i = i + 1;
    }
}

/// Undoing a merge: where `back` takes out what `step` took up, laying the same
/// patch again with `back` leaves every cell as it was.
pub proof fn law_merge_is_undone<T, U>(
    step: spec_fn(T, U, T) -> bool,
    back: spec_fn(T, U, T) -> bool,
    h: int,
    w: int,
    laid: Laid<U>,
    first: Seq<T>,
    mid: Seq<T>,
    last: Seq<T>,
)
    requires
        laid.wf(h, w),
        first.len() == h * w,
        merged(step, w, laid, first, mid),
        merged(back, w, laid, mid, last),
        forall|a: T, b: U, r: T, s: T| #[trigger] step(a, b, r) && #[trigger] back(r, b, s) ==> s == a,
    ensures
        last == first,
{
    assert forall|c: int| 0 <= c < first.len() implies last[c] == first[c] by {
        if laid.covers(w, c) {
            let (i, j) = choose|i: int, j: int| #[trigger] laid.has(i, j) && laid.under(w, i, j) == c;
            assert(step(first[c], laid.at(i, j), mid[c]));
            assert(back(mid[c], laid.at(i, j), last[c]));
        } else {
            assert(mid[c] == first[c]);
        }
    }
    assert(last =~= first);
}

/// The first line of a patch that is placed, of those from lattice line `at`
/// on.
pub open spec fn starts(at: int, periodic: bool) -> int {
    if periodic {
        0
    } else {
        first_inside(at)
    }
}

/// The end of the lines of a patch that are placed.
pub open spec fn ends(at: int, len: int, n: int, periodic: bool) -> int {
    if periodic {
        len
    } else {
        end_inside(at, len, n)
    }
}

/// `laid` is what lies on the lattice of the `ph` by `pw` patch `src`, whose
/// corner is put at `(y0, x0)`.
pub open spec fn placed<T>(
    src: Seq<T>,
    y0: int,
    x0: int,
    ph: int,
    pw: int,
    h: int,
    w: int,
    periodic: bool,
    laid: Laid<T>,
) -> bool {
    let (sy, sx) = (starts(y0, periodic), starts(x0, periodic));
    &&& has_place(y0, x0, ph, pw, h, w, periodic)
    &&& laid.rows@.len() == ends(y0, ph, h, periodic) - sy
    &&& laid.cols@.len() == ends(x0, pw, w, periodic) - sx
    &&& forall|i: int| 0 <= i < laid.rows@.len() ==> #[trigger] laid.rows@[i] == (y0 + sy + i) % h
    &&& forall|j: int| 0 <= j < laid.cols@.len() ==> #[trigger] laid.cols@[j] == (x0 + sx + j) % w
    &&& laid.cells@.len() == laid.rows@.len() * laid.cols@.len()
    &&& forall|i: int, j: int| #[trigger] laid.has(i, j) ==> laid.at(i, j) == src[flat(pw, sy + i, sx + j)]
}

/// Puts a patch on the lattice with its corner at `(y0, x0)`.
pub fn lay<T: Copy>(
    src: &Vec<T>,
    y0: i64,
    x0: i64,
    ph: usize,
    pw: usize,
    h: usize,
    w: usize,
    periodic: bool,
) -> (r: Option<Laid<T>>)
    requires
        h <= i64::MAX,
        w <= i64::MAX,
        y0 + ph <= i64::MAX,
        x0 + pw <= i64::MAX,
        ph <= i64::MAX,
        pw <= i64::MAX,
        src@.len() == ph * pw,
    ensures
        r is Some <==> has_place(y0 as int, x0 as int, ph as int, pw as int, h as int, w as int, periodic),
        r matches Some(laid) ==> {
            &&& laid.wf(h as int, w as int)
            &&& placed(src@, y0 as int, x0 as int, ph as int, pw as int, h as int, w as int, periodic, laid)
        },
{
    match patch_index(y0, x0, ph, pw, h, w, periodic) {
        None => None,
        Some(place) => {
            let cells = slice_patch(src, ph, pw, &place);
            Some(Laid { rows: place.rows, cols: place.cols, cells })
        },
    }
}

/// A patch that was placed lies on cells of its own.
pub proof fn lemma_placed_wf<T>(src: Seq<T>, y0: int, x0: int, ph: int, pw: int, h: int, w: int, periodic: bool, laid: Laid<T>)
    requires
        placed(src, y0, x0, ph, pw, h, w, periodic, laid),
        h >= 0,
        w >= 0,
    ensures
        laid.wf(h, w),
{
    assert forall|i: int, j: int| 0 <= i < j < laid.rows@.len() implies laid.rows@[i] != laid.rows@[j] by {
        lemma_ring_distinct(y0 + starts(y0, periodic) + i, y0 + starts(y0, periodic) + j, h);
    }
    assert forall|i: int, j: int| 0 <= i < j < laid.cols@.len() implies laid.cols@[i] != laid.cols@[j] by {
        lemma_ring_distinct(x0 + starts(x0, periodic) + i, x0 + starts(x0, periodic) + j, w);
    }
}

} // verus!

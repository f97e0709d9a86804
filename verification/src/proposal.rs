//! One batch proposal: which particles are picked, where each would go, and
//! which of those moves can be made together.

use crate::lattice::{count_lit, flat, lemma_flat_bound, lemma_flat_injective, lemma_flat_inverse, wrap};
use crate::stream::{pcg_word, Stream};
use std::collections::HashSet;
use vstd::prelude::*;

verus! {

broadcast use vstd::std_specs::hash::group_hash_axioms;

/// A cell as row and column.
pub type Site = (i32, i32);

/// What a proposal reads of a lattice gas: its geometry, the longest hop, the
/// lit and the closed cells, and where each particle stands.
pub struct Board {
    pub h: int,
    pub w: int,
    pub periodic: bool,
    pub hop: int,
    pub occ: Seq<bool>,
    pub blocked: Seq<bool>,
    pub pos: Seq<Site>,
}

/// The words a proposal is dealt, and how many particles it picks.
pub struct Deal {
    pub seed: u64,
    pub position: u128,
    pub batch: nat,
}

impl Board {
    pub open spec fn on_board(self, s: Site) -> bool {
        0 <= s.0 < self.h && 0 <= s.1 < self.w
    }

    pub open spec fn at(self, s: Site) -> int {
        flat(self.w, s.0 as int, s.1 as int)
    }

    /// A particle stands on `s`.
    pub open spec fn lit(self, s: Site) -> bool {
        self.occ[self.at(s)]
    }

    /// The geometry fits the machine's coordinates.
    pub open spec fn fits(self) -> bool {
        &&& 0 <= self.h
        &&& 0 <= self.w
        &&& 0 <= self.hop
        &&& 2 * self.hop + 1 <= i32::MAX
        &&& self.h + self.hop <= i32::MAX
        &&& self.w + self.hop <= i32::MAX
        &&& self.occ.len() == self.h * self.w
        &&& self.blocked.len() == self.h * self.w
    }

    /// `pos` lists the lit cells, each once.
    pub open spec fn wf(self) -> bool {
        &&& self.fits()
        &&& forall|i: int|
            0 <= i < self.pos.len() ==> self.on_board(#[trigger] self.pos[i]) && self.lit(self.pos[i])
        &&& forall|i: int, j: int| 0 <= i < j < self.pos.len() ==> self.pos[i] != self.pos[j]
        &&& forall|s: Site| self.on_board(s) && #[trigger] self.lit(s) ==> self.pos.contains(s)
    }
}

impl Deal {
    pub open spec fn word(self, k: int) -> u64 {
        pcg_word(self.seed, (self.position + k) as u128)
    }

    /// The particle numbers below `n` after `i` swaps, the `k`-th of which
    /// exchanges place `k` with a place at or after it.
    pub open spec fn shuffled(self, n: int, i: nat) -> Seq<int>
        decreases i,
    {
        if i == 0 {
            Seq::new(n as nat, |k: int| k)
        } else {
            let before = self.shuffled(n, (i - 1) as nat);
            let a = i - 1;
            let b = a + (self.word(a) as usize) as int % (n - a);
            before.update(a, before[b]).update(b, before[a])
        }
    }

    /// The particle that slot `i` of the batch picks.
    pub open spec fn pick(self, b: Board, i: int) -> int {
        self.shuffled(b.pos.len() as int, self.batch)[i]
    }

    pub open spec fn origin(self, b: Board, i: int) -> Site {
        b.pos[self.pick(b, i)]
    }

    /// The displacement read off the `k`-th word, evenly spread over
    /// `-hop..=hop`.
    pub open spec fn shift(self, b: Board, k: int) -> int {
        self.word(k) as int % (2 * b.hop + 1) - b.hop
    }

    /// Where slot `i` would go before the edge of the lattice is looked at.
    pub open spec fn aim(self, b: Board, i: int) -> (int, int) {
        (
            self.origin(b, i).0 + self.shift(b, self.batch + 2 * i),
            self.origin(b, i).1 + self.shift(b, self.batch + 2 * i + 1),
        )
    }

    pub open spec fn moved(self, b: Board, i: int) -> bool {
        self.aim(b, i) != (self.origin(b, i).0 as int, self.origin(b, i).1 as int)
    }

    /// Where slot `i` would land.
    pub open spec fn target(self, b: Board, i: int) -> Site {
        let aim = self.aim(b, i);
        if b.periodic && self.moved(b, i) {
            ((aim.0 % b.h) as i32, (aim.1 % b.w) as i32)
        } else {
            (aim.0 as i32, aim.1 as i32)
        }
    }

    /// Slot `i` moves onto a cell of the lattice that is open.
    pub open spec fn lands(self, b: Board, i: int) -> bool {
        &&& self.moved(b, i)
        &&& b.on_board(self.target(b, i))
        &&& !b.blocked[b.at(self.target(b, i))]
    }

    /// Slot `i` lands where no earlier slot does.
    pub open spec fn claims(self, b: Board, i: int) -> bool {
        &&& self.lands(b, i)
        &&& forall|j: int| #![trigger self.lands(b, j)] 0 <= j < i && self.lands(b, j) ==> self.target(b, j) != self.target(b, i)
    }

    /// The slots in `set` can move together: each claims its cell, and a cell
    /// that is lit is left by another of them.
    pub open spec fn movable(self, b: Board, set: Set<int>) -> bool {
        forall|i: int| #[trigger] set.contains(i) ==> {
            &&& 0 <= i < self.batch
            &&& self.claims(b, i)
            &&& b.lit(self.target(b, i)) ==> exists|j: int|
                #[trigger] set.contains(j) && self.origin(b, j) == self.target(b, i)
        }
    }

    /// Slot `i` belongs to some set of slots that can move together.
    pub open spec fn survives(self, b: Board, i: int) -> bool {
        exists|set: Set<int>| #[trigger] self.movable(b, set) && set.contains(i)
    }

    /// The surviving slots below `n`, in order.
    pub open spec fn survivors(self, b: Board, n: nat) -> Seq<int>
        decreases n,
    {
        if n == 0 {
            Seq::empty()
        } else if self.survives(b, n - 1) {
            self.survivors(b, (n - 1) as nat).push(n - 1)
        } else {
            self.survivors(b, (n - 1) as nat)
        }
    }
}

/// How many particles a proposal picks out of `n`, of which there is one at
/// least.
pub open spec fn batch_size(live: int, n: int) -> nat {
    let m = if live < n { live } else { n };
    (if m < 1 { 1 } else { m }) as nat
}

/// Moves that can be made together: particle `idx[i]` goes from `old[i]` to
/// `new[i]`.
#[derive(Debug)]
pub struct Moves {
    pub idx: Vec<usize>,
    pub old: Vec<Site>,
    pub new: Vec<Site>,
}

/// What moves there are.
#[verifier::ext_equal]
pub struct Plan {
    pub idx: Seq<usize>,
    pub old: Seq<Site>,
    pub new: Seq<Site>,
}

impl View for Moves {
    type V = Plan;

    open spec fn view(&self) -> Plan {
        Plan { idx: self.idx@, old: self.old@, new: self.new@ }
    }
}

impl Plan {
    /// The moves are those of the slots that survive of deal `d` on board `b`.
    pub open spec fn dealt(self, b: Board, d: Deal) -> bool {
        let kept = d.survivors(b, d.batch);
        &&& self.idx.len() == kept.len()
        &&& self.old.len() == kept.len()
        &&& self.new.len() == kept.len()
        &&& forall|i: int|
            #![trigger kept[i]]
            0 <= i < kept.len() ==> {
                &&& self.idx[i] == d.pick(b, kept[i])
                &&& self.old[i] == d.origin(b, kept[i])
                &&& self.new[i] == d.target(b, kept[i])
            }
    }

    /// Particle `k` is among those that move.
    pub open spec fn takes(self, k: int) -> bool {
        exists|i: int| 0 <= i < self.idx.len() && #[trigger] self.idx[i] == k
    }

    /// Which of the moves is that of particle `k`.
    pub open spec fn slot(self, k: int) -> int {
        choose|i: int| 0 <= i < self.idx.len() && #[trigger] self.idx[i] == k
    }

    /// The moves can be made together on board `b`: each takes a particle of
    /// its own from where it stands to an open cell of its own, and a cell that
    /// is lit is left by another of them.
    pub open spec fn legal(self, b: Board) -> bool {
        let n = self.idx.len();
        &&& self.old.len() == n
        &&& self.new.len() == n
        &&& forall|i: int| 0 <= i < n ==> #[trigger] self.idx[i] < b.pos.len()
        &&& forall|i: int, j: int| 0 <= i < j < n ==> self.idx[i] != self.idx[j]
        &&& forall|i: int| 0 <= i < n ==> #[trigger] self.old[i] == b.pos[self.idx[i] as int]
        &&& forall|i: int|
            0 <= i < n ==> b.on_board(#[trigger] self.new[i]) && !b.blocked[b.at(self.new[i])]
        &&& forall|i: int, j: int| 0 <= i < j < n ==> self.new[i] != self.new[j]
        &&& forall|i: int| 0 <= i < n && b.lit(#[trigger] self.new[i]) ==> self.old.contains(self.new[i])
    }
}

impl Board {
    /// The board once `moves` are made.
    pub open spec fn after(self, moves: Plan) -> Board {
        Board {
            occ: Seq::new(
                self.occ.len(),
                |c: int| self.places(moves.new).contains(c) || self.occ[c] && !self.places(moves.old).contains(c),
            ),
            pos: Seq::new(
                self.pos.len(),
                |k: int| if moves.takes(k) { moves.new[moves.slot(k)] } else { self.pos[k] },
            ),
            ..self
        }
    }

    pub open spec fn places(self, sites: Seq<Site>) -> Seq<int> {
        sites.map_values(|s: Site| self.at(s))
    }
}

/// The surviving slots come in order.
pub proof fn lemma_survivors(b: Board, d: Deal, n: nat)
    ensures
        forall|i: int| 0 <= i < d.survivors(b, n).len() ==> 0 <= #[trigger] d.survivors(b, n)[i] < n && d.survives(b, d.survivors(b, n)[i]),
        forall|i: int, j: int| 0 <= i < j < d.survivors(b, n).len() ==> d.survivors(b, n)[i] < d.survivors(b, n)[j],
        forall|k: int| 0 <= k < n && d.survives(b, k) ==> #[trigger] d.survivors(b, n).contains(k),
    decreases n,
{
    if n > 0 {
        let less = d.survivors(b, (n - 1) as nat);
        let all = d.survivors(b, n);
        lemma_survivors(b, d, (n - 1) as nat);
        assert forall|k: int| 0 <= k < n && d.survives(b, k) implies #[trigger] all.contains(k) by {
            if k == n - 1 {
                assert(all[all.len() - 1] == k);
            } else {
                assert(less.contains(k));
                let i = choose|i: int| 0 <= i < less.len() && less[i] == k;
                assert(all[i] == k);
            }
        }
    }
}

/// The moves a deal comes to can be made together.
pub proof fn law_dealt_moves_are_legal(b: Board, d: Deal, moves: Plan)
    requires
        b.wf(),
        d.batch <= b.pos.len(),
        moves.dealt(b, d),
    ensures
        moves.legal(b),
{
    let kept = d.survivors(b, d.batch);
    let n = b.pos.len() as int;
    lemma_survivors(b, d, d.batch);
    lemma_shuffled(d, n, d.batch);
    assert forall|i: int| 0 <= i < kept.len() implies {
        &&& #[trigger] moves.idx[i] < n
        &&& moves.old[i] == b.pos[moves.idx[i] as int]
        &&& b.on_board(moves.new[i])
        &&& d.claims(b, kept[i])
    } by {
        assert(0 <= kept[i] < d.batch && d.survives(b, kept[i]));
    }
    assert forall|i: int| 0 <= i < kept.len() implies b.on_board(#[trigger] moves.new[i]) && !b.blocked[b.at(moves.new[i])] by {
        assert(moves.idx[i] < n);
    }
    assert forall|i: int| 0 <= i < kept.len() implies #[trigger] moves.old[i] == b.pos[moves.idx[i] as int] by {
        assert(moves.idx[i] < n);
    }
    assert forall|i: int, j: int| 0 <= i < j < kept.len() implies moves.idx[i] != moves.idx[j] && moves.new[i] != moves.new[j] by {
        assert(kept[i] < kept[j]);
        assert(d.pick(b, kept[i]) != d.pick(b, kept[j]));
        assert(d.claims(b, kept[j]));
        assert(d.lands(b, kept[i]));
    }
    assert forall|i: int| 0 <= i < kept.len() && b.lit(#[trigger] moves.new[i]) implies moves.old.contains(moves.new[i]) by {
        let k = kept[i];
        assert(d.survives(b, k));
        let set = choose|set: Set<int>| #[trigger] d.movable(b, set) && set.contains(k);
        let j = choose|j: int| #[trigger] set.contains(j) && d.origin(b, j) == d.target(b, k);
        assert(d.survives(b, j));
        assert(kept.contains(j));
        let l = choose|l: int| 0 <= l < kept.len() && kept[l] == j;
        assert(moves.old[l] == moves.new[i]);
    }
}

/// A shuffle keeps every particle number, each once.
pub proof fn lemma_shuffled(d: Deal, n: int, i: nat)
    requires
        i <= n,
    ensures
        d.shuffled(n, i).len() == n,
        forall|k: int| 0 <= k < n ==> 0 <= #[trigger] d.shuffled(n, i)[k] < n,
        forall|k: int, l: int| 0 <= k < l < n ==> d.shuffled(n, i)[k] != d.shuffled(n, i)[l],
    decreases i,
{
    if i > 0 {
        lemma_shuffled(d, n, (i - 1) as nat);
        let a = i - 1;
        assert(0 <= (d.word(a) as usize) as int % (n - a) < n - a);
    }
}

/// The board that these parts make up.
pub open spec fn board_of(
    h: usize,
    w: usize,
    periodic: bool,
    hop: i32,
    occ: Seq<bool>,
    blocked: Seq<bool>,
    pos: Seq<Site>,
) -> Board {
    Board { h: h as int, w: w as int, periodic, hop: hop as int, occ, blocked, pos }
}

/// The particles of the batch, picked by a partial Fisher-Yates shuffle.
pub fn pick_batch(n: usize, m: usize, stream: &mut Stream) -> (idx: Vec<usize>)
    requires
        m <= n,
        old(stream).position + m <= u128::MAX,
    ensures
        ({
            let d = Deal { seed: old(stream).seed, position: old(stream).position, batch: m as nat };
            &&& idx@.len() == m
            &&& forall|i: int| 0 <= i < m ==> #[trigger] idx@[i] == d.shuffled(n as int, m as nat)[i]
        }),
        final(stream).seed == old(stream).seed,
        final(stream).position == old(stream).position + m,
{
    let ghost d = Deal { seed: stream.seed, position: stream.position, batch: m as nat };
    let mut pool: Vec<usize> = Vec::with_capacity(n);
    let mut k: usize = 0;
    while k < n
        invariant
            k <= n,
            pool@.len() == k,
            forall|l: int| 0 <= l < k ==> #[trigger] pool@[l] == l,
        decreases n - k,
    {
        pool.push(k);
        k = k + 1;
    }
    let mut idx: Vec<usize> = Vec::with_capacity(m);
    let mut i: usize = 0;
    while i < m
        invariant
            i <= m <= n,
            d.seed == stream.seed,
            d.position + i == stream.position,
            stream.position + (m - i) <= u128::MAX,
            pool@.len() == n,
            d.shuffled(n as int, i as nat).len() == n,
            forall|l: int| 0 <= l < n ==> #[trigger] pool@[l] == d.shuffled(n as int, i as nat)[l],
            idx@ =~= pool@.take(i as int),
        decreases m - i,
    {
        let word = stream.next_word();
        let j = i + (word as usize) % (n - i);
        assert(word == d.word(i as int));
        let a = pool[i];
        let b = pool[j];
        pool.set(i, b);
        pool.set(j, a);
        idx.push(b);
        i = i + 1;
        proof {
            lemma_shuffled(d, n as int, i as nat);
        }
    }
    idx
}

/// Draws a displacement for each of the picked particles. The first two parts
/// of the result are where each stands and where it would land, the third says
/// whether it moves onto an open cell.
fn aim_batch(
    h: usize,
    w: usize,
    periodic: bool,
    hop: i32,
    blocked: &Vec<bool>,
    pos: &Vec<Site>,
    idx: &Vec<usize>,
    stream: &mut Stream,
    Ghost(b): Ghost<Board>,
    Ghost(d): Ghost<Deal>,
) -> (r: (Vec<Site>, Vec<Site>, Vec<bool>))
    requires
        b == board_of(h, w, periodic, hop, b.occ, blocked@, pos@),
        b.wf(),
        d.batch == idx@.len() <= pos@.len(),
        d.seed == old(stream).seed,
        d.position + d.batch == old(stream).position,
        old(stream).position + 2 * d.batch <= u128::MAX,
        forall|i: int| 0 <= i < d.batch ==> #[trigger] idx@[i] == d.pick(b, i),
    ensures
        r.0@.len() == d.batch,
        r.1@.len() == d.batch,
        r.2@.len() == d.batch,
        forall|i: int| 0 <= i < d.batch ==> #[trigger] r.0@[i] == d.origin(b, i) && b.on_board(r.0@[i]),
        forall|i: int| 0 <= i < d.batch ==> #[trigger] r.1@[i] == d.target(b, i),
        forall|i: int| 0 <= i < d.batch ==> #[trigger] r.2@[i] == d.lands(b, i),
        final(stream).seed == old(stream).seed,
        final(stream).position == old(stream).position + 2 * d.batch,
{
    let m = idx.len();
    let cells = blocked.len();
    let span: u64 = (2 * hop + 1) as u64;
    let mut from: Vec<Site> = Vec::with_capacity(m);
    let mut to: Vec<Site> = Vec::with_capacity(m);
    let mut keep: Vec<bool> = Vec::with_capacity(m);
    let mut i: usize = 0;
    while i < m
        invariant
            i <= m == idx@.len(),
            cells == h * w,
            span == 2 * hop + 1,
            b == board_of(h, w, periodic, hop, b.occ, blocked@, pos@),
            b.wf(),
            d.batch == m <= pos@.len(),
            d.seed == stream.seed,
            d.position + d.batch + 2 * i == stream.position,
            stream.position + 2 * (m - i) <= u128::MAX,
            forall|k: int| 0 <= k < d.batch ==> #[trigger] idx@[k] == d.pick(b, k),
            from@.len() == i,
            to@.len() == i,
            keep@.len() == i,
            forall|k: int| 0 <= k < i ==> #[trigger] from@[k] == d.origin(b, k) && b.on_board(from@[k]),
            forall|k: int| 0 <= k < i ==> #[trigger] to@[k] == d.target(b, k),
            forall|k: int| 0 <= k < i ==> #[trigger] keep@[k] == d.lands(b, k),
        decreases m - i,
    {
        proof {
            lemma_shuffled(d, pos@.len() as int, d.batch);
            assert(idx@[i as int] == d.pick(b, i as int));
        }
        let here = pos[idx[i]];
        assert(here == d.origin(b, i as int) && b.on_board(here));
        let wy = stream.next_word();
        let wx = stream.next_word();
        assert(wy == d.word(d.batch + 2 * i) && wx == d.word(d.batch + 2 * i + 1));
        let mut y: i32 = here.0 + ((wy % span) as i32 - hop);
        let mut x: i32 = here.1 + ((wx % span) as i32 - hop);
        assert(d.aim(b, i as int) == (y as int, x as int));
        let moved = y != here.0 || x != here.1;
        assert(moved == d.moved(b, i as int));
        let mut open = moved;
        if moved {
            if periodic {
                y = wrap(y as i64, h as i64) as i32;
                x = wrap(x as i64, w as i64) as i32;
            } else if y < 0 || y as i64 >= h as i64 || x < 0 || x as i64 >= w as i64 {
                open = false;
            }
        }
        assert((y, x) == d.target(b, i as int));
        assert(open == (d.moved(b, i as int) && b.on_board((y, x))));
        if open {
            proof {
                lemma_flat_bound(b.h, b.w, y as int, x as int);
            }
            if blocked[y as usize * w + x as usize] {
                open = false;
            }
        }
        from.push(here);
        to.push((y, x));
        keep.push(open);
        i = i + 1;
    }
    (from, to, keep)
}

/// Putting out a lit entry takes one off the count.
proof fn lemma_count_drop(cells: Seq<bool>, i: int)
    requires
        0 <= i < cells.len(),
        cells[i],
    ensures
        count_lit(cells.update(i, false)) == count_lit(cells) - 1,
    decreases cells.len(),
{
    let after = cells.update(i, false);
    if i == cells.len() - 1 {
        assert(after.drop_last() =~= cells.drop_last());
    } else {
        assert(after.drop_last() =~= cells.drop_last().update(i, false));
        lemma_count_drop(cells.drop_last(), i);
    }
}

/// The place of a cell of the lattice fits a key.
proof fn lemma_place(b: Board, s: Site)
    requires
        b.fits(),
        b.on_board(s),
    ensures
        0 <= b.at(s) < b.occ.len(),
        s.0 * b.w <= b.at(s) <= i64::MAX,
{
    lemma_flat_bound(b.h, b.w, s.0 as int, s.1 as int);
    assert(s.0 * b.w <= i32::MAX * i32::MAX) by (nonlinear_arith)
        requires
            0 <= s.0 <= i32::MAX,
            0 <= b.w <= i32::MAX,
    ;
}

/// The place of a cell of the lattice as a key.
fn key(s: Site, w: usize, Ghost(b): Ghost<Board>) -> (k: i64)
    requires
        b.fits(),
        b.w == w,
        b.on_board(s),
    ensures
        k == b.at(s),
        0 <= k < b.occ.len(),
{
    proof {
        lemma_place(b, s);
    }
    s.0 as i64 * w as i64 + s.1 as i64
}

/// Two cells of the lattice with the same place are the same.
proof fn lemma_same_place(b: Board, s: Site, t: Site)
    requires
        b.on_board(s),
        b.on_board(t),
        b.at(s) == b.at(t),
    ensures
        s == t,
{
    lemma_flat_injective(b.w, s.0 as int, s.1 as int, t.0 as int, t.1 as int);
}

/// Of the slots that land on one cell, keeps the first.
fn keep_first_claims(w: usize, to: &Vec<Site>, keep: &mut Vec<bool>, Ghost(b): Ghost<Board>, Ghost(d): Ghost<Deal>)
    requires
        b.fits(),
        b.w == w,
        to@.len() == d.batch,
        old(keep)@.len() == d.batch,
        forall|i: int| 0 <= i < d.batch ==> #[trigger] to@[i] == d.target(b, i),
        forall|i: int| 0 <= i < d.batch ==> #[trigger] old(keep)@[i] == d.lands(b, i),
    ensures
        final(keep)@.len() == d.batch,
        forall|i: int| 0 <= i < d.batch ==> #[trigger] final(keep)@[i] == d.claims(b, i),
{
    let m = to.len();
    let mut seen: HashSet<i64> = HashSet::new();
    let mut i: usize = 0;
    while i < m
        invariant
            i <= m == d.batch,
            b.fits(),
            b.w == w,
            to@.len() == m,
            keep@.len() == m,
            forall|k: int| 0 <= k < m ==> #[trigger] to@[k] == d.target(b, k),
            forall|k: int| 0 <= k < i ==> #[trigger] keep@[k] == d.claims(b, k),
            forall|k: int| i <= k < m ==> #[trigger] keep@[k] == d.lands(b, k),
            forall|k: int| 0 <= k < i && #[trigger] d.lands(b, k) ==> seen@.contains(b.at(to@[k]) as i64),
            forall|p: i64| #[trigger] seen@.contains(p) ==> exists|k: int|
                0 <= k < i && #[trigger] d.lands(b, k) && b.at(to@[k]) == p,
        decreases m - i,
    {
        if keep[i] {
            assert(d.lands(b, i as int) && to@[i as int] == d.target(b, i as int));
            let p = key(to[i], w, Ghost(b));
            let fresh = seen.insert(p);
            if !fresh {
                proof {
                    let k = choose|k: int| 0 <= k < i && #[trigger] d.lands(b, k) && b.at(to@[k]) == p;
                    lemma_same_place(b, to@[k], to@[i as int]);
                    assert(!d.claims(b, i as int));
                }
                keep.set(i, false);
            } else {
                assert forall|j: int|
                    #![trigger d.lands(b, j)]
                    0 <= j < i && d.lands(b, j) implies d.target(b, j) != d.target(b, i as int) by {
                    assert(to@[j] == d.target(b, j));
                }
            }
        }
        i = i + 1;
    }
}

/// Drops slots that land on a particle which stays, until none is left that
/// does. Dropping a slot leaves its own particle in place, so one pass is not
/// enough.
fn keep_movable(
    w: usize,
    occ: &Vec<bool>,
    from: &Vec<Site>,
    to: &Vec<Site>,
    keep: &mut Vec<bool>,
    Ghost(b): Ghost<Board>,
    Ghost(d): Ghost<Deal>,
)
    requires
        b.fits(),
        b.w == w,
        b.occ == occ@,
        from@.len() == d.batch,
        to@.len() == d.batch,
        old(keep)@.len() == d.batch,
        forall|i: int| 0 <= i < d.batch ==> #[trigger] from@[i] == d.origin(b, i) && b.on_board(from@[i]),
        forall|i: int| 0 <= i < d.batch ==> #[trigger] to@[i] == d.target(b, i),
        forall|i: int| 0 <= i < d.batch ==> #[trigger] old(keep)@[i] == d.claims(b, i),
    ensures
        final(keep)@.len() == d.batch,
        forall|i: int| 0 <= i < d.batch ==> #[trigger] final(keep)@[i] == d.survives(b, i),
{
    let m = to.len();
    let cells = occ.len();
    let mut changed = true;
    while changed
        invariant
            m == d.batch,
            b.fits(),
            b.w == w,
            b.occ == occ@,
            cells == occ@.len(),
            from@.len() == m,
            to@.len() == m,
            keep@.len() == m,
            forall|k: int| 0 <= k < m ==> #[trigger] from@[k] == d.origin(b, k) && b.on_board(from@[k]),
            forall|k: int| 0 <= k < m ==> #[trigger] to@[k] == d.target(b, k),
            forall|k: int| 0 <= k < m && #[trigger] keep@[k] ==> d.claims(b, k),
            forall|set: Set<int>, k: int| #[trigger] d.movable(b, set) && #[trigger] set.contains(k) ==> keep@[k],
            !changed ==> d.movable(b, Set::new(|k: int| 0 <= k < m && keep@[k])),
        decreases count_lit(keep@) + if changed { 1nat } else { 0nat },
    {
        changed = false;
        let ghost before = keep@;
        let mut leaving: HashSet<i64> = HashSet::new();
        let mut i: usize = 0;
        while i < m
            invariant
                i <= m == d.batch,
                b.fits(),
                b.w == w,
                from@.len() == m,
                keep@.len() == m,
                keep@ == before,
                forall|k: int| 0 <= k < m ==> #[trigger] from@[k] == d.origin(b, k) && b.on_board(from@[k]),
                forall|k: int| 0 <= k < i && before[k] ==> leaving@.contains(b.at(#[trigger] from@[k]) as i64),
                forall|p: i64| #[trigger] leaving@.contains(p) ==> exists|k: int|
                    0 <= k < i && before[k] && b.at(#[trigger] from@[k]) == p,
            decreases m - i,
        {
            if keep[i] {
                let p = key(from[i], w, Ghost(b));
                leaving.insert(p);
                assert forall|q: i64| #[trigger] leaving@.contains(q) implies exists|k: int|
                    0 <= k < i + 1 && before[k] && b.at(#[trigger] from@[k]) == q by {
                    if q == p {
                        assert(b.at(from@[i as int]) == q);
                    }
                }
            }
            i = i + 1;
        }
        let mut i: usize = 0;
        while i < m
            invariant
                i <= m == d.batch,
                b.fits(),
                b.w == w,
                b.occ == occ@,
                cells == occ@.len(),
                from@.len() == m,
                to@.len() == m,
                keep@.len() == m,
                before.len() == m,
                forall|k: int| 0 <= k < m ==> #[trigger] from@[k] == d.origin(b, k) && b.on_board(from@[k]),
                forall|k: int| 0 <= k < m ==> #[trigger] to@[k] == d.target(b, k),
                forall|k: int| 0 <= k < m && before[k] ==> leaving@.contains(b.at(#[trigger] from@[k]) as i64),
                forall|p: i64| #[trigger] leaving@.contains(p) ==> exists|k: int|
                    0 <= k < m && before[k] && b.at(#[trigger] from@[k]) == p,
                forall|k: int| 0 <= k < m && #[trigger] before[k] ==> d.claims(b, k),
                forall|set: Set<int>, k: int| #[trigger] d.movable(b, set) && #[trigger] set.contains(k) ==> before[k],
                forall|set: Set<int>, k: int| #[trigger] d.movable(b, set) && #[trigger] set.contains(k) ==> keep@[k],
                forall|k: int| 0 <= k < m && #[trigger] keep@[k] ==> before[k],
                forall|k: int| 0 <= k < i && #[trigger] keep@[k] ==> !b.lit(to@[k]) || leaving@.contains(b.at(to@[k]) as i64),
                !changed ==> keep@ == before,
                changed ==> count_lit(keep@) < count_lit(before),
            decreases m - i,
        {
            if keep[i] {
                assert(before[i as int] && to@[i as int] == d.target(b, i as int));
                let p = key(to[i], w, Ghost(b));
                if occ[p as usize] && !leaving.contains(&p) {
                    proof {
                        assert forall|set: Set<int>| #[trigger] d.movable(b, set) implies !set.contains(i as int) by {
                            if set.contains(i as int) {
                                assert(b.lit(d.target(b, i as int)));
                                let j = choose|j: int| #[trigger] set.contains(j) && d.origin(b, j) == d.target(b, i as int);
                                assert(before[j]);
                                assert(from@[j] == to@[i as int]);
                            }
                        }
                        lemma_count_drop(keep@, i as int);
                    }
                    keep.set(i, false);
                    changed = true;
                }
            }
            i = i + 1;
        }
        proof {
            if !changed {
                let set = Set::new(|k: int| 0 <= k < m && keep@[k]);
                assert forall|i: int| #[trigger] set.contains(i) implies {
                    &&& 0 <= i < d.batch
                    &&& d.claims(b, i)
                    &&& b.lit(d.target(b, i)) ==> exists|j: int|
                        #[trigger] set.contains(j) && d.origin(b, j) == d.target(b, i)
                } by {
                    assert(keep@[i] && to@[i] == d.target(b, i));
                    if b.lit(d.target(b, i)) {
                        lemma_place(b, to@[i]);
                        let p = b.at(to@[i]) as i64;
                        let j = choose|j: int| 0 <= j < m && before[j] && b.at(#[trigger] from@[j]) == p;
                        lemma_same_place(b, from@[j], to@[i]);
                        assert(set.contains(j));
                    }
                }
            }
        }
    }
    proof {
        let set = Set::new(|k: int| 0 <= k < m && keep@[k]);
        assert forall|i: int| 0 <= i < d.batch implies #[trigger] keep@[i] == d.survives(b, i) by {
            if keep@[i] {
                assert(set.contains(i));
            }
        }
    }
}

/// Draws one proposal of `m` particles: the moves that can be made together.
pub fn draw_moves(
    h: usize,
    w: usize,
    periodic: bool,
    hop: i32,
    occ: &Vec<bool>,
    blocked: &Vec<bool>,
    pos: &Vec<Site>,
    m: usize,
    stream: &mut Stream,
) -> (moves: Moves)
    requires
        board_of(h, w, periodic, hop, occ@, blocked@, pos@).wf(),
        m <= pos@.len(),
        old(stream).position + 3 * m <= u128::MAX,
    ensures
        moves@.dealt(
            board_of(h, w, periodic, hop, occ@, blocked@, pos@),
            Deal { seed: old(stream).seed, position: old(stream).position, batch: m as nat },
        ),
        moves@.legal(board_of(h, w, periodic, hop, occ@, blocked@, pos@)),
        final(stream).seed == old(stream).seed,
        final(stream).position == old(stream).position + 3 * m,
{
    let ghost b = board_of(h, w, periodic, hop, occ@, blocked@, pos@);
    let ghost d = Deal { seed: stream.seed, position: stream.position, batch: m as nat };
    let idx = pick_batch(pos.len(), m, stream);
    let (from, to, keep) = aim_batch(h, w, periodic, hop, blocked, pos, &idx, stream, Ghost(b), Ghost(d));
    let mut keep = keep;
    keep_first_claims(w, &to, &mut keep, Ghost(b), Ghost(d));
    keep_movable(w, occ, &from, &to, &mut keep, Ghost(b), Ghost(d));
    let mut moves = Moves { idx: Vec::new(), old: Vec::new(), new: Vec::new() };
    let mut i: usize = 0;
    while i < m
        invariant
            i <= m == d.batch,
            idx@.len() == m,
            from@.len() == m,
            to@.len() == m,
            keep@.len() == m,
            forall|k: int| 0 <= k < m ==> #[trigger] idx@[k] == d.pick(b, k),
            forall|k: int| 0 <= k < m ==> #[trigger] from@[k] == d.origin(b, k),
            forall|k: int| 0 <= k < m ==> #[trigger] to@[k] == d.target(b, k),
            forall|k: int| 0 <= k < m ==> #[trigger] keep@[k] == d.survives(b, k),
            ({
                let kept = d.survivors(b, i as nat);
                &&& moves.idx@.len() == kept.len()
                &&& moves.old@.len() == kept.len()
                &&& moves.new@.len() == kept.len()
                &&& forall|k: int|
                    #![trigger kept[k]]
                    0 <= k < kept.len() ==> {
                        &&& moves.idx@[k] == d.pick(b, kept[k])
                        &&& moves.old@[k] == d.origin(b, kept[k])
                        &&& moves.new@[k] == d.target(b, kept[k])
                    }
            }),
        decreases m - i,
    {
        let ghost less = d.survivors(b, i as nat);
        let ghost was = moves;
        if keep[i] {
            moves.idx.push(idx[i]);
            moves.old.push(from[i]);
            moves.new.push(to[i]);
        }
        i = i + 1;
        proof {
            let kept = d.survivors(b, i as nat);
            assert forall|k: int| #![trigger kept[k]] 0 <= k < kept.len() implies {
                &&& moves.idx@[k] == d.pick(b, kept[k])
                &&& moves.old@[k] == d.origin(b, kept[k])
                &&& moves.new@[k] == d.target(b, kept[k])
            } by {
                if k < less.len() {
                    assert(kept[k] == less[k]);
                }
            }
        }
    }
    proof {
        law_dealt_moves_are_legal(b, d, moves@);
    }
    moves
}

/// Takes the particles of `moves` off their cells and puts them down on the
/// new ones.
pub(crate) fn make_moves(
    w: usize,
    occ: &mut Vec<bool>,
    pos: &mut Vec<Site>,
    moves: &Moves,
    Ghost(b): Ghost<Board>,
)
    requires
        b.wf(),
        b.w == w,
        b.occ == old(occ)@,
        b.pos == old(pos)@,
        moves@.legal(b),
    ensures
        final(occ)@ == b.after(moves@).occ,
        final(pos)@ == b.after(moves@).pos,
{
    let n = moves.idx.len();
    let cells = occ.len();
    let mut i: usize = 0;
    while i < n
        invariant
            i <= n == moves.idx@.len(),
            cells == b.occ.len(),
            b.wf(),
            b.w == w,
            moves@.legal(b),
            occ@.len() == b.occ.len(),
            forall|c: int|
                0 <= c < b.occ.len() ==> #[trigger] occ@[c] == (b.occ[c] && !b.places(moves.old@.take(i as int)).contains(c)),
        decreases n - i,
    {
        let s = moves.old[i];
        let p = key(s, w, Ghost(b)) as usize;
        occ.set(p, false);
        proof {
            lemma_places_take(b, moves.old@, i as int);
        }
        i = i + 1;
    }
    proof {
        assert(moves.old@.take(n as int) =~= moves.old@);
    }
    let mut i: usize = 0;
    while i < n
        invariant
            i <= n == moves.idx@.len(),
            cells == b.occ.len(),
            b.wf(),
            b.w == w,
            moves@.legal(b),
            occ@.len() == b.occ.len(),
            pos@.len() == b.pos.len(),
            forall|c: int|
                0 <= c < b.occ.len() ==> #[trigger] occ@[c] == (b.places(moves.new@.take(i as int)).contains(c) || b.occ[c]
                    && !b.places(moves.old@).contains(c)),
            forall|k: int|
                0 <= k < i ==> pos@[#[trigger] moves.idx@[k] as int] == moves.new@[k],
            forall|k: int|
                0 <= k < b.pos.len() && (forall|j: int| 0 <= j < i ==> #[trigger] moves.idx@[j] != k) ==> #[trigger] pos@[k]
                    == b.pos[k],
        decreases n - i,
    {
        let s = moves.new[i];
        let p = key(s, w, Ghost(b)) as usize;
        occ.set(p, true);
        let k = moves.idx[i];
        pos.set(k, s);
        proof {
            lemma_places_take(b, moves.new@, i as int);
        }
        i = i + 1;
    }
    proof {
        assert(moves.new@.take(n as int) =~= moves.new@);
        let done = b.after(moves@);
        assert forall|k: int| 0 <= k < b.pos.len() implies #[trigger] pos@[k] == done.pos[k] by {
            if moves@.takes(k) {
                assert(moves.idx@[moves@.slot(k)] == k);
            }
        }
        assert(occ@ =~= done.occ);
        assert(pos@ =~= done.pos);
    }
}

/// One more site adds its place.
proof fn lemma_places_take(b: Board, sites: Seq<Site>, i: int)
    requires
        0 <= i < sites.len(),
    ensures
        forall|c: int|
            #[trigger] b.places(sites.take(i + 1)).contains(c) <==> b.places(sites.take(i)).contains(c) || c == b.at(sites[i]),
{
    let less = b.places(sites.take(i));
    let more = b.places(sites.take(i + 1));
    assert(more =~= less.push(b.at(sites[i])));
    assert forall|c: int| #[trigger] more.contains(c) <==> less.contains(c) || c == b.at(sites[i]) by {
        if less.contains(c) {
            let j = choose|j: int| 0 <= j < less.len() && less[j] == c;
            assert(more[j] == c);
        }
        if c == b.at(sites[i]) {
            assert(more[i] == c);
        }
    }
}

/// The lit places, as a set, are as many as the count says.
proof fn lemma_count_is_size(cells: Seq<bool>)
    ensures
        Set::new(|c: int| 0 <= c < cells.len() && cells[c]).finite(),
        Set::new(|c: int| 0 <= c < cells.len() && cells[c]).len() == count_lit(cells),
    decreases cells.len(),
{
    let all = Set::new(|c: int| 0 <= c < cells.len() && cells[c]);
    if cells.len() == 0 {
        assert(all =~= Set::empty());
    } else {
        let less = cells.drop_last();
        let fewer = Set::new(|c: int| 0 <= c < less.len() && less[c]);
        lemma_count_is_size(less);
        if cells.last() {
            assert(all =~= fewer.insert(cells.len() - 1));
        } else {
            assert(all =~= fewer);
        }
    }
}

/// A board has as many lit cells as particles.
pub proof fn law_lit_cells_are_the_particles(b: Board)
    requires
        b.wf(),
    ensures
        count_lit(b.occ) == b.pos.len(),
{
    let places = b.places(b.pos);
    let lit = Set::new(|c: int| 0 <= c < b.occ.len() && b.occ[c]);
    assert forall|i: int, j: int| 0 <= i < places.len() && 0 <= j < places.len() && i != j implies places[i] != places[j] by {
        if places[i] == places[j] {
            lemma_same_place(b, b.pos[i], b.pos[j]);
        }
    }
    assert forall|c: int| places.to_set().contains(c) <==> lit.contains(c) by {
        if places.contains(c) {
            let i = choose|i: int| 0 <= i < places.len() && places[i] == c;
            lemma_place(b, b.pos[i]);
        }
        if lit.contains(c) {
            lemma_flat_inverse(b.h, b.w, c);
            let s = ((c / b.w) as i32, (c % b.w) as i32);
            assert(b.on_board(s) && b.lit(s));
            assert(b.pos.contains(s));
            let i = choose|i: int| 0 <= i < b.pos.len() && b.pos[i] == s;
            assert(places[i] == c);
        }
    }
    assert(places.to_set() =~= lit);
    places.unique_seq_to_set();
    lemma_count_is_size(b.occ);
}

/// Making legal moves leaves a board whole: its particles still stand each on a
/// lit cell of its own, there are as many of them as before, and as many cells
/// are lit.
pub proof fn law_moves_conserve_particles(b: Board, moves: Plan)
    requires
        b.wf(),
        moves.legal(b),
    ensures
        b.after(moves).wf(),
        b.after(moves).pos.len() == b.pos.len(),
        count_lit(b.after(moves).occ) == count_lit(b.occ),
{
    let a = b.after(moves);
    let n = moves.idx.len() as int;
    let came = b.places(moves.new);
    let left = b.places(moves.old);
    assert forall|k: int| 0 <= k < a.pos.len() implies {
        &&& moves.takes(k) ==> 0 <= moves.slot(k) < n && moves.idx[moves.slot(k)] == k
        &&& a.on_board(#[trigger] a.pos[k])
        &&& a.lit(a.pos[k])
    } by {
        if moves.takes(k) {
            let i = moves.slot(k);
            assert(moves.idx[i] == k);
            assert(a.pos[k] == moves.new[i]);
            assert(came[i] == b.at(moves.new[i]));
            lemma_place(b, a.pos[k]);
        } else {
            lemma_place(b, b.pos[k]);
            if left.contains(b.at(b.pos[k])) {
                let i = choose|i: int| 0 <= i < left.len() && left[i] == b.at(b.pos[k]);
                let l = moves.idx[i] as int;
                assert(moves.old[i] == b.pos[l]);
                lemma_same_place(b, b.pos[l], b.pos[k]);
                assert(l == k);
                assert(moves.takes(k));
            }
        }
    }
    assert forall|k: int, l: int| 0 <= k < l < a.pos.len() implies a.pos[k] != a.pos[l] by {
        lemma_distinct_after(b, moves, k, l);
    }
    assert forall|s: Site| a.on_board(s) && #[trigger] a.lit(s) implies a.pos.contains(s) by {
        lemma_place(b, s);
        let c = b.at(s);
        if came.contains(c) {
            let i = choose|i: int| 0 <= i < came.len() && came[i] == c;
            lemma_same_place(b, moves.new[i], s);
            let k = moves.idx[i] as int;
            assert(moves.takes(k));
            assert(moves.slot(k) == i);
            assert(a.pos[k] == s);
        } else {
            assert(b.lit(s));
            let k = choose|k: int| 0 <= k < b.pos.len() && b.pos[k] == s;
            if moves.takes(k) {
                let i = moves.slot(k);
                assert(moves.idx[i] == k);
                assert(moves.old[i] == s);
                assert(left[i] == c);
            }
            assert(a.pos[k] == s);
        }
    }
    law_lit_cells_are_the_particles(b);
    law_lit_cells_are_the_particles(a);
}

/// Two particles stand on different cells once legal moves are made.
proof fn lemma_distinct_after(b: Board, moves: Plan, k: int, l: int)
    requires
        b.wf(),
        moves.legal(b),
        0 <= k < b.pos.len(),
        0 <= l < b.pos.len(),
        k != l,
    ensures
        b.after(moves).pos[k] != b.after(moves).pos[l],
{
    let a = b.after(moves);
    if moves.takes(k) && moves.takes(l) {
        assert(moves.idx[moves.slot(k)] == k);
        assert(moves.idx[moves.slot(l)] == l);
    } else if moves.takes(k) {
        lemma_stayer_is_clear(b, moves, moves.slot(k), l);
    } else if moves.takes(l) {
        lemma_stayer_is_clear(b, moves, moves.slot(l), k);
    }
}

/// No move lands on a particle that stays.
proof fn lemma_stayer_is_clear(b: Board, moves: Plan, i: int, k: int)
    requires
        b.wf(),
        moves.legal(b),
        0 <= i < moves.idx.len(),
        0 <= k < b.pos.len(),
        !moves.takes(k),
    ensures
        moves.new[i] != b.pos[k],
{
    if moves.new[i] == b.pos[k] {
        assert(b.lit(b.pos[k]));
        assert(b.lit(moves.new[i]));
        assert(moves.old.contains(moves.new[i]));
        let j = choose|j: int| 0 <= j < moves.old.len() && moves.old[j] == moves.new[i];
        assert(moves.old[j] == b.pos[moves.idx[j] as int]);
        assert(moves.idx[j] == k);
    }
}

} // verus!

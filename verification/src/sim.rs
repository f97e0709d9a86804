//! A lattice gas that anneals: its state, and the energy of moves on it.

use crate::convolve::field_fits;
use crate::formulas::{move_energy, move_energy_is, potential, potential_is};
use crate::kernel::{lemma_ring_bound, side};
use crate::lattice::{flat, gap, lemma_flat_bound, lemma_flat_parts, wrap};
use crate::paint::{records, Record};
use crate::patch::Laid;
use crate::physics::{sum, summed, Params, Physics};
use crate::proposal::{board_of, Board, Moves, Plan, Site};
use crate::stream::Stream;
use vstd::prelude::*;

verus! {

/// The most strokes that can be undone.
pub const STROKE_UNDO_CAP: usize = 32;

/// What a stroke laid on the lattice: on the fixed potential, on the painted
/// charge and on the cells that paint closes.
#[derive(Debug)]
pub struct StrokeRecord<R> {
    pub u_patches: Vec<Laid<R>>,
    pub q_patches: Vec<Laid<R>>,
    pub b_patches: Vec<Laid<bool>>,
}

/// All of `patches` lie on the lattice.
pub open spec fn all_laid<T>(patches: Seq<Laid<T>>, h: int, w: int) -> bool {
    forall|i: int| 0 <= i < patches.len() ==> (#[trigger] patches[i]).wf(h, w)
}

impl<R> StrokeRecord<R> {
    pub open spec fn wf(self, h: int, w: int) -> bool {
        &&& all_laid(self.u_patches@, h, w)
        &&& all_laid(self.q_patches@, h, w)
        &&& all_laid(self.b_patches@, h, w)
    }
}

/// A lattice gas over lines and paint.
#[derive(Debug)]
pub struct Sim<R> {
    pub params: Params<R>,
    pub stream: Stream,
    /// How far lines cover each cell, and the charge of a cell covered whole.
    pub cov: Vec<R>,
    pub line_density: R,
    pub line_blocked: Vec<bool>,
    /// Painted charge, and the cells that paint closes.
    pub paint: Vec<R>,
    pub paint_blocked: Vec<bool>,
    pub strokes: Vec<StrokeRecord<R>>,
    pub blocked: Vec<bool>,
    /// The fixed potential, of lines and paint.
    pub u_edge: Vec<R>,
    /// Interaction between particles, and that of a particle with fixed charge.
    pub kernel: Vec<R>,
    pub kernel_edge: Vec<R>,
    pub rc: usize,
    pub occ: Vec<bool>,
    pub pos: Vec<Site>,
    pub energy: R,
    pub iteration: u64,
    pub proposed: u64,
    pub accepted: u64,
    pub dead_proposals: u64,
    pub fail_streak: u32,
    pub live_batch: usize,
}

/// Where the particles of a gas stand, and what acts on them.
#[verifier::ext_equal]
pub struct Layout<R> {
    pub params: Params<R>,
    pub blocked: Seq<bool>,
    pub u_edge: Seq<R>,
    pub kernel: Seq<R>,
    pub rc: usize,
    pub occ: Seq<bool>,
    pub pos: Seq<Site>,
}

/// What a gas is annealed over: lines, paint and the record of its strokes.
#[verifier::ext_equal]
pub struct Scene<R> {
    pub cov: Seq<R>,
    pub line_density: R,
    pub line_blocked: Seq<bool>,
    pub paint: Seq<R>,
    pub paint_blocked: Seq<bool>,
    pub strokes: Seq<Record<R>>,
    pub kernel_edge: Seq<R>,
}

/// A lattice gas.
#[verifier::ext_equal]
pub struct Gas<R> {
    pub layout: Layout<R>,
    pub scene: Scene<R>,
    pub seed: u64,
    pub position: u128,
    pub energy: R,
    pub iteration: u64,
    pub proposed: u64,
    pub accepted: u64,
    pub dead_proposals: u64,
    pub fail_streak: u32,
    pub live_batch: usize,
}

impl<R> View for Sim<R> {
    type V = Gas<R>;

    open spec fn view(&self) -> Gas<R> {
        Gas {
            layout: self.layout(),
            scene: self.scene(),
            seed: self.stream.seed,
            position: self.stream.position,
            energy: self.energy,
            iteration: self.iteration,
            proposed: self.proposed,
            accepted: self.accepted,
            dead_proposals: self.dead_proposals,
            fail_streak: self.fail_streak,
            live_batch: self.live_batch,
        }
    }
}

impl<R> Sim<R> {
    pub open spec fn scene(self) -> Scene<R> {
        Scene {
            cov: self.cov@,
            line_density: self.line_density,
            line_blocked: self.line_blocked@,
            paint: self.paint@,
            paint_blocked: self.paint_blocked@,
            strokes: records(self.strokes@),
            kernel_edge: self.kernel_edge@,
        }
    }

    pub open spec fn layout(self) -> Layout<R> {
        Layout {
            params: self.params,
            blocked: self.blocked@,
            u_edge: self.u_edge@,
            kernel: self.kernel@,
            rc: self.rc,
            occ: self.occ@,
            pos: self.pos@,
        }
    }

    pub open spec fn cells(self) -> int {
        self.params.h * self.params.w
    }

    /// The layers have a value for each cell, and the tables are whole.
    pub open spec fn whole(self) -> bool {
        let n = self.cells();
        let t = side(self.rc as int) * side(self.rc as int);
        &&& self.layout().board().wf()
        &&& field_fits(self.params.h as int, self.params.w as int, self.rc as int, self.params.periodic)
        &&& self.cov@.len() == n
        &&& self.line_blocked@.len() == n
        &&& self.paint@.len() == n
        &&& self.paint_blocked@.len() == n
        &&& self.u_edge@.len() == n
        &&& self.kernel@.len() == t
        &&& self.kernel_edge@.len() == t
    }

    /// The counters agree: every iteration of a gas that has particles either
    /// came to moves or died, and only the former could be accepted.
    pub open spec fn counted(self) -> bool {
        &&& self.accepted <= self.proposed
        &&& self.proposed + self.dead_proposals == (if self.pos@.len() == 0 {
            0
        } else {
            self.iteration as int
        })
        &&& self.fail_streak <= self.dead_proposals
        &&& self.fail_streak == 0 || self.fail_streak < self.params.fail_limit
        &&& self.stream.position <= self.iteration * 0x1_0000_0000_0000_0000
        &&& self.live_batch >= self.params.batch_min
    }

    pub open spec fn wf(self) -> bool {
        &&& self.whole()
        &&& self.counted()
        &&& forall|c: int|
            0 <= c < self.cells() ==> #[trigger] self.blocked@[c] == (self.line_blocked@[c] || self.paint_blocked@[c])
        &&& self.strokes@.len() <= STROKE_UNDO_CAP
        &&& forall|i: int|
            0 <= i < self.strokes@.len() ==> (#[trigger] self.strokes@[i]).wf(self.params.h as int, self.params.w as int)
    }
}

impl<R> Layout<R> {
    pub open spec fn board(self) -> Board {
        board_of(
            self.params.h,
            self.params.w,
            self.params.periodic,
            self.params.step_size,
            self.occ,
            self.blocked,
            self.pos,
        )
    }

    /// The cell under entry `k` of a table centred on `s`.
    pub open spec fn near(self, s: Site, k: int) -> (int, int) {
        let y = s.0 + k / side(self.rc as int) - self.rc;
        let x = s.1 + k % side(self.rc as int) - self.rc;
        if self.params.periodic {
            (y % self.params.h as int, x % self.params.w as int)
        } else {
            (y, x)
        }
    }

    /// A particle stands under entry `k` of a table centred on `s`, and not on
    /// a site of `mask`.
    pub open spec fn felt(self, s: Site, mask: Seq<Site>, k: int) -> bool {
        let (y, x) = self.near(s, k);
        &&& 0 <= y < self.params.h
        &&& 0 <= x < self.params.w
        &&& self.occ[flat(self.params.w as int, y, x)]
        &&& !mask.contains((y as i32, x as i32))
    }

    /// The first `k` entries of a table centred on `s` that are felt, in order.
    pub open spec fn feels(self, s: Site, mask: Seq<Site>, k: nat) -> Seq<R>
        decreases k,
    {
        if k == 0 {
            Seq::empty()
        } else if self.felt(s, mask, k - 1) {
            self.feels(s, mask, (k - 1) as nat).push(self.kernel[k - 1])
        } else {
            self.feels(s, mask, (k - 1) as nat)
        }
    }

    /// All entries of a table centred on `s` under which a particle stands
    /// that is not on a site of `mask`.
    pub open spec fn surroundings(self, s: Site, mask: Seq<Site>) -> Seq<R> {
        self.feels(s, mask, self.kernel.len())
    }

    /// The square of the distance between two sites, the shorter way around on
    /// a torus.
    pub open spec fn apart(self, s: Site, t: Site) -> int {
        let dy = gap(s.0 as int, t.0 as int, self.params.h as int, self.params.periodic);
        let dx = gap(s.1 as int, t.1 as int, self.params.w as int, self.params.periodic);
        dy * dy + dx * dx
    }

    /// The squares of the distances between sites, pair by pair, from pair
    /// `(i, j)` on.
    pub open spec fn pairs_from(self, sites: Seq<Site>, i: int, j: int) -> Seq<int>
        decreases sites.len() - i, sites.len() - j,
    {
        if i >= sites.len() {
            Seq::empty()
        } else if j >= sites.len() {
            self.pairs_from(sites, i + 1, i + 2)
        } else {
            seq![self.apart(sites[i], sites[j])] + self.pairs_from(sites, i, j + 1)
        }
    }
}

/// Whether `sites` holds `s`.
fn holds_site(sites: &Vec<Site>, s: Site) -> (r: bool)
    ensures
        r == sites@.contains(s),
{
    let mut i: usize = 0;
    while i < sites.len()
        invariant
            i <= sites@.len(),
            forall|k: int| 0 <= k < i ==> #[trigger] sites@[k] != s,
        decreases sites@.len() - i,
    {
        if sites[i].0 == s.0 && sites[i].1 == s.1 {
            assert(sites@[i as int] == s);
            return true;
        }
        i = i + 1;
    }
    false
}

impl<R: Copy> Sim<R> {
    /// The interaction of a charge on `s` with the particles around it, those
    /// on sites of `mask` left out.
    pub fn gather_bool<P: Physics<Real = R>>(&self, p: &P, s: Site, mask: &Vec<Site>) -> (r: R)
        requires
            self.whole(),
            self.layout().board().on_board(s),
        ensures
            summed(*p, self.layout().surroundings(s, mask@), r),
    {
        let rc = self.rc;
        proof {
            lemma_ring_bound(rc as int, 0, 0);
        }
        let n = 2 * rc + 1;
        let (h, w) = (self.params.h, self.params.w);
        let cells = self.occ.len();
        let size = self.kernel.len();
        let mut terms: Vec<R> = Vec::new();
        let mut k: usize = 0;
        let mut i: usize = 0;
        let mut j: usize = 0;
        while k < size
            invariant
                self.whole(),
                self.layout().board().on_board(s),
                rc == self.rc,
                rc <= i32::MAX,
                n == side(rc as int),
                h == self.params.h,
                w == self.params.w,
                cells == h * w,
                size == n * n,
                size == self.kernel@.len(),
                k <= size,
                k == i * n + j,
                0 <= j < n,
                i <= n,
                terms@ =~= self.layout().feels(s, mask@, k as nat),
            decreases size - k,
        {
            proof {
                lemma_flat_parts(n as int, i as int, j as int);
                assert(i < n) by (nonlinear_arith)
                    requires
                        i * n + j < n * n,
                        j >= 0,
                ;
            }
            let mut y: i64 = s.0 as i64 + i as i64 - rc as i64;
            let mut x: i64 = s.1 as i64 + j as i64 - rc as i64;
            if self.params.periodic {
                y = wrap(y, h as i64);
                x = wrap(x, w as i64);
            }
            assert(self.layout().near(s, k as int) == (y as int, x as int));
            if 0 <= y && y < h as i64 && 0 <= x && x < w as i64 {
                proof {
                    lemma_flat_bound(h as int, w as int, y as int, x as int);
                }
                if self.occ[y as usize * w + x as usize] && !holds_site(mask, (y as i32, x as i32)) {
                    terms.push(self.kernel[k]);
                }
            }
            k = k + 1;
            j = j + 1;
            if j == n {
                proof {
                    assert((i + 1) * n == i * n + n) by (nonlinear_arith);
                }
                j = 0;
                i = i + 1;
            }
        }
        sum(p, &terms)
    }
}

/// `r` is the sum of the potentials at distances with the squares `r2s`.
pub open spec fn paired<P: Physics>(p: P, params: Params<P::Real>, r2s: Seq<int>, r: P::Real) -> bool {
    exists|parts: Seq<P::Real>| #[trigger]
        summed(p, parts, r) && parts.len() == r2s.len() && (forall|k: int|
            0 <= k < parts.len() ==> potential_is(p, r2s[k], params, true, #[trigger] parts[k]))
}

/// The gap between two of `n` lines is shorter than `n`.
proof fn lemma_gap(a: int, b: int, n: int, periodic: bool)
    requires
        0 <= a < n <= i32::MAX,
        0 <= b < n,
    ensures
        -i32::MAX <= gap(a, b, n, periodic) <= i32::MAX,
        0 <= gap(a, b, n, periodic) * gap(a, b, n, periodic) <= i32::MAX * i32::MAX,
{
    let g = gap(a, b, n, periodic);
    assert(0 <= g * g <= i32::MAX * i32::MAX) by (nonlinear_arith)
        requires
            -i32::MAX <= g <= i32::MAX,
    ;
}

/// The step from `b` to `a` along one axis.
fn gap_of(a: i32, b: i32, n: usize, periodic: bool) -> (d: i64)
    requires
        0 <= a < n <= i32::MAX,
        0 <= b < n,
    ensures
        d == gap(a as int, b as int, n as int, periodic),
        -i32::MAX <= d <= i32::MAX,
        0 <= d * d <= i32::MAX * i32::MAX,
{
    proof {
        lemma_gap(a as int, b as int, n as int, periodic);
    }
    let plain: i64 = a as i64 - b as i64;
    if periodic {
        let half: i64 = n as i64 / 2;
        wrap(plain + half, n as i64) - half
    } else {
        plain
    }
}

/// Every site of `sites` is on the board.
pub open spec fn all_on_board(b: Board, sites: Seq<Site>) -> bool {
    forall|i: int| 0 <= i < sites.len() ==> b.on_board(#[trigger] sites[i])
}

impl<R: Copy> Sim<R> {
    /// The interaction of charges on `sites` with one another.
    pub fn pair_energy<P: Physics<Real = R>>(&self, p: &P, sites: &Vec<Site>) -> (r: R)
        requires
            self.whole(),
            all_on_board(self.layout().board(), sites@),
        ensures
            paired(*p, self.params, self.layout().pairs_from(sites@, 0, 1), r),
    {
        let ghost all = self.layout().pairs_from(sites@, 0, 1);
        let ghost mut seen: Seq<int> = Seq::empty();
        assert(seen + all =~= all);
        let mut parts: Vec<R> = Vec::new();
        let n = sites.len();
        let (h, w, periodic) = (self.params.h, self.params.w, self.params.periodic);
        let mut i: usize = 0;
        while i < n
            invariant
                self.whole(),
                all_on_board(self.layout().board(), sites@),
                h == self.params.h,
                w == self.params.w,
                periodic == self.params.periodic,
                i <= n == sites@.len(),
                all == self.layout().pairs_from(sites@, 0, 1),
                all == seen + self.layout().pairs_from(sites@, i as int, i + 1),
                parts@.len() == seen.len(),
                forall|k: int|
                    0 <= k < parts@.len() ==> potential_is(*p, seen[k], self.params, true, #[trigger] parts@[k]),
            decreases n - i,
        {
            let mut j: usize = i + 1;
            while j < n
                invariant
                    self.whole(),
                    all_on_board(self.layout().board(), sites@),
                    h == self.params.h,
                    w == self.params.w,
                    periodic == self.params.periodic,
                    i < j <= n == sites@.len(),
                    all == seen + self.layout().pairs_from(sites@, i as int, j as int),
                    parts@.len() == seen.len(),
                    forall|k: int|
                        0 <= k < parts@.len() ==> potential_is(*p, seen[k], self.params, true, #[trigger] parts@[k]),
                decreases n - j,
            {
                let (s, t) = (sites[i], sites[j]);
                assert(self.layout().board().on_board(s) && self.layout().board().on_board(t));
                let dy = gap_of(s.0, t.0, h, periodic);
                let dx = gap_of(s.1, t.1, w, periodic);
                let r2 = dy * dy + dx * dx;
                assert(r2 == self.layout().apart(s, t));
                let v = potential(p, r2, &self.params, true);
                parts.push(v);
                proof {
                    let rest = self.layout().pairs_from(sites@, i as int, j + 1);
                    assert(seen + (seq![r2 as int] + rest) =~= seen.push(r2 as int) + rest);
                    seen = seen.push(r2 as int);
                }
                j = j + 1;
            }
            i = i + 1;
        }
        assert(seen + Seq::<int>::empty() =~= seen);
        sum(p, &parts)
    }
}

/// `r` is the interaction of charges on `sites` with the particles around
/// them, those on sites of `mask` left out.
pub open spec fn crowded<P: Physics>(p: P, lay: Layout<P::Real>, sites: Seq<Site>, mask: Seq<Site>, r: P::Real) -> bool {
    exists|parts: Seq<P::Real>| #[trigger]
        summed(p, parts, r) && parts.len() == sites.len() && (forall|i: int|
            0 <= i < sites.len() ==> summed(p, lay.surroundings(sites[i], mask), #[trigger] parts[i]))
}

/// `r` is the interaction of movers on `sites`: with the particles that stay,
/// those on none of `mask`, and with one another.
pub open spec fn bound_by<P: Physics>(p: P, lay: Layout<P::Real>, sites: Seq<Site>, mask: Seq<Site>, r: P::Real) -> bool {
    exists|c: P::Real, q: P::Real|
        crowded(p, lay, sites, mask, c) && paired(p, lay.params, lay.pairs_from(sites, 0, 1), q) && #[trigger] call_ensures(
            P::plus,
            (&p, c, q),
            r,
        )
}

/// `r` is the change of the fixed potential under movers from `from` to `to`.
pub open spec fn shifted<P: Physics>(p: P, lay: Layout<P::Real>, from: Seq<Site>, to: Seq<Site>, r: P::Real) -> bool {
    exists|parts: Seq<P::Real>| #[trigger]
        summed(p, parts, r) && parts.len() == from.len() && (forall|i: int|
            0 <= i < from.len() ==> call_ensures(
                P::minus,
                (&p, lay.u_edge[lay.board().at(to[i])], lay.u_edge[lay.board().at(from[i])]),
                #[trigger] parts[i],
            ))
}

/// `de` is the energy that `moves` cost.
pub open spec fn costs<P: Physics>(p: P, lay: Layout<P::Real>, moves: Plan, de: P::Real) -> bool {
    exists|e_old: P::Real, e_new: P::Real, du: P::Real| #[trigger] costs_by(p, lay, moves, de, e_old, e_new, du)
}

pub open spec fn costs_by<P: Physics>(
    p: P,
    lay: Layout<P::Real>,
    moves: Plan,
    de: P::Real,
    e_old: P::Real,
    e_new: P::Real,
    du: P::Real,
) -> bool {
    &&& bound_by(p, lay, moves.old, moves.old, e_old)
    &&& bound_by(p, lay, moves.new, moves.old, e_new)
    &&& shifted(p, lay, moves.old, moves.new, du)
    &&& move_energy_is(p, lay.params.charge, e_new, e_old, du, de)
}

impl<R: Copy> Sim<R> {
    fn mover_energy<P: Physics<Real = R>>(&self, p: &P, sites: &Vec<Site>, mask: &Vec<Site>) -> (r: R)
        requires
            self.whole(),
            all_on_board(self.layout().board(), sites@),
        ensures
            bound_by(*p, self.layout(), sites@, mask@, r),
    {
        let mut parts: Vec<R> = Vec::with_capacity(sites.len());
        let mut i: usize = 0;
        while i < sites.len()
            invariant
                self.whole(),
                all_on_board(self.layout().board(), sites@),
                i <= sites@.len(),
                parts@.len() == i,
                forall|k: int| 0 <= k < i ==> summed(*p, self.layout().surroundings(sites@[k], mask@), #[trigger] parts@[k]),
            decreases sites@.len() - i,
        {
            assert(self.layout().board().on_board(sites@[i as int]));
            parts.push(self.gather_bool(p, sites[i], mask));
            i = i + 1;
        }
        let crowd = sum(p, &parts);
        assert(crowded(*p, self.layout(), sites@, mask@, crowd));
        let pair = self.pair_energy(p, sites);
        p.plus(crowd, pair)
    }

    fn field_shift<P: Physics<Real = R>>(&self, p: &P, from: &Vec<Site>, to: &Vec<Site>) -> (r: R)
        requires
            self.whole(),
            all_on_board(self.layout().board(), from@),
            all_on_board(self.layout().board(), to@),
            from@.len() == to@.len(),
        ensures
            shifted(*p, self.layout(), from@, to@, r),
    {
        let (h, w) = (self.params.h, self.params.w);
        let cells = self.u_edge.len();
        let mut parts: Vec<R> = Vec::with_capacity(from.len());
        let mut i: usize = 0;
        while i < from.len()
            invariant
                self.whole(),
                h == self.params.h,
                w == self.params.w,
                cells == h * w,
                all_on_board(self.layout().board(), from@),
                all_on_board(self.layout().board(), to@),
                from@.len() == to@.len(),
                i <= from@.len(),
                parts@.len() == i,
                forall|k: int|
                    0 <= k < i ==> call_ensures(
                        P::minus,
                        (p, self.u_edge@[self.layout().board().at(to@[k])], self.u_edge@[self.layout().board().at(from@[k])]),
                        #[trigger] parts@[k],
                    ),
            decreases from@.len() - i,
        {
            let (a, b) = (from[i], to[i]);
            proof {
                assert(self.layout().board().on_board(a) && self.layout().board().on_board(b));
                lemma_flat_bound(h as int, w as int, a.0 as int, a.1 as int);
                lemma_flat_bound(h as int, w as int, b.0 as int, b.1 as int);
            }
            let there = self.u_edge[b.0 as usize * w + b.1 as usize];
            let here = self.u_edge[a.0 as usize * w + a.1 as usize];
            parts.push(p.minus(there, here));
            i = i + 1;
        }
        sum(p, &parts)
    }

    /// The energy that moves cost.
    pub fn cost<P: Physics<Real = R>>(&self, p: &P, moves: &Moves) -> (de: R)
        requires
            self.whole(),
            moves@.legal(self.layout().board()),
        ensures
            costs(*p, self.layout(), moves@, de),
    {
        proof {
            assert forall|i: int| 0 <= i < moves.old@.len() implies self.layout().board().on_board(#[trigger] moves.old@[i]) by {
                assert(moves.idx@[i] < self.pos@.len());
            }
        }
        let e_old = self.mover_energy(p, &moves.old, &moves.old);
        let e_new = self.mover_energy(p, &moves.new, &moves.old);
        let du = self.field_shift(p, &moves.old, &moves.new);
        let de = move_energy(p, self.params.charge, e_new, e_old, du);
        assert(costs_by(*p, self.layout(), moves@, de, e_old, e_new, du));
        de
    }
}

/// A board whose closed cells change is whole.
pub proof fn lemma_same_board<R>(s0: Sim<R>, s1: Sim<R>)
    requires
        s0.layout().board().wf(),
        s1.params == s0.params,
        s1.occ == s0.occ,
        s1.pos == s0.pos,
        s1.blocked@.len() == s0.blocked@.len(),
    ensures
        s1.layout().board().wf(),
{
    let (b0, b1) = (s0.layout().board(), s1.layout().board());
    assert(b0.fits() && b1.fits() && b1.pos == b0.pos);
    assert forall|i: int| 0 <= i < b1.pos.len() implies b1.on_board(#[trigger] b1.pos[i]) && b1.lit(b1.pos[i]) by {
        assert(b0.on_board(b0.pos[i]) && b0.lit(b0.pos[i]));
    }
    assert forall|s: Site| b1.on_board(s) && #[trigger] b1.lit(s) implies b1.pos.contains(s) by {
        assert(b0.lit(s));
    }
}

} // verus!

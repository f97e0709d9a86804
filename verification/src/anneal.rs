//! Batch-Metropolis annealing.

use crate::fold::{folded, lemma_folded_same};
use crate::formulas::{
    downhill, downhill_is, lemma_potential_settled, lucky, lucky_is, potential_is, potentials_settled,
};
use crate::lattice::count_lit;
use crate::physics::{plus_step, summed, Physics};
use crate::proposal::{
    batch_size, draw_moves, law_dealt_moves_are_legal, law_lit_cells_are_the_particles, law_moves_conserve_particles,
    make_moves, Board, Deal, Plan, Site,
};
use crate::sim::{bound_by, costs, costs_by, crowded, paired, Gas, Layout, Sim};
use vstd::prelude::*;

verus! {

impl<R> Gas<R> {
    /// The words that the next proposal is dealt.
    pub open spec fn deal(self) -> Deal {
        Deal {
            seed: self.seed,
            position: self.position,
            batch: batch_size(self.live_batch as int, self.layout.pos.len() as int),
        }
    }

    /// The stream of words has been read as far as `position`.
    pub open spec fn read_to(self, position: int) -> Gas<R> {
        Gas { position: position as u128, ..self }
    }

    /// One iteration more is on the count.
    pub open spec fn turned(self) -> Gas<R> {
        Gas { iteration: (self.iteration + 1) as u64, ..self }
    }

    /// An iteration came to no legal move. Enough of them in a row make the
    /// batch smaller.
    pub open spec fn stalled(self) -> Gas<R> {
        let streak = self.fail_streak + 1;
        let shrinks = streak >= self.layout.params.fail_limit;
        let less = self.live_batch - self.layout.params.batch_decrement;
        Gas {
            dead_proposals: (self.dead_proposals + 1) as u64,
            fail_streak: (if shrinks {
                0
            } else {
                streak
            }) as u32,
            live_batch: (if !shrinks {
                self.live_batch as int
            } else if less > self.layout.params.batch_min {
                less
            } else {
                self.layout.params.batch_min as int
            }) as usize,
            ..self
        }
    }

    /// An iteration came to a proposal.
    pub open spec fn offered(self) -> Gas<R> {
        Gas { proposed: (self.proposed + 1) as u64, fail_streak: 0, ..self }
    }

    /// The moves of a proposal are made, and bring the energy to `energy`.
    pub open spec fn taken(self, moves: Plan, energy: R) -> Gas<R> {
        Gas {
            layout: Layout {
                occ: self.layout.board().after(moves).occ,
                pos: self.layout.board().after(moves).pos,
                ..self.layout
            },
            energy,
            accepted: (self.accepted + 1) as u64,
            ..self
        }
    }
}

/// `after` is what an iteration that came to `moves`, which are some, makes of
/// `gas`: they are weighed, and made if they lead downhill or the next random
/// word says so.
pub open spec fn judged<P: Physics>(p: P, gas: Gas<P::Real>, moves: Plan, after: Gas<P::Real>, took: bool) -> bool {
    exists|de: P::Real, down: bool| #[trigger] judged_by(p, gas, moves, after, took, de, down)
}

pub open spec fn judged_by<P: Physics>(
    p: P,
    gas: Gas<P::Real>,
    moves: Plan,
    after: Gas<P::Real>,
    took: bool,
    de: P::Real,
    down: bool,
) -> bool {
    let drawn = 3 * gas.deal().batch;
    let read = gas.turned().offered().read_to(gas.position + drawn + if down { 0int } else { 1int });
    &&& costs(p, gas.layout, moves, de)
    &&& downhill_is(p, de, down)
    &&& if down {
        took
    } else {
        lucky_is(p, de, gas.layout.params.temperature, gas.deal().word(drawn as int), took)
    }
    &&& if took {
        call_ensures(P::plus, (&p, gas.energy, de), after.energy) && after == read.taken(moves, after.energy)
    } else {
        after == read
    }
}

/// `after` is what one iteration makes of `gas`, and `took` says whether its
/// moves were made.
pub open spec fn stepped<P: Physics>(p: P, gas: Gas<P::Real>, after: Gas<P::Real>, took: bool) -> bool {
    if gas.layout.pos.len() == 0 {
        after == gas.turned() && !took
    } else {
        exists|moves: Plan| #[trigger]
            moves.dealt(gas.layout.board(), gas.deal()) && if moves.idx.len() == 0 {
                after == gas.turned().stalled().read_to(gas.position + 3 * gas.deal().batch) && !took
            } else {
                judged(p, gas, moves, after, took)
            }
    }
}

/// `after` is what `n` iterations make of `gas`.
pub open spec fn ran<P: Physics>(p: P, gas: Gas<P::Real>, n: nat, after: Gas<P::Real>) -> bool
    decreases n,
{
    if n == 0 {
        after == gas
    } else {
        exists|mid: Gas<P::Real>, took: bool| #[trigger]
            stepped(p, mid, after, took) && ran(p, gas, (n - 1) as nat, mid)
    }
}

impl<R> Sim<R> {
    /// What annealing leaves alone is the same in `other`.
    pub open spec fn same_scene(self, other: Sim<R>) -> bool {
        &&& self.cov == other.cov
        &&& self.line_density == other.line_density
        &&& self.line_blocked == other.line_blocked
        &&& self.paint == other.paint
        &&& self.paint_blocked == other.paint_blocked
        &&& self.strokes == other.strokes
        &&& self.kernel_edge == other.kernel_edge
    }

    /// The machine can count `n` iterations more.
    pub open spec fn can_run(self, n: int) -> bool {
        &&& self.iteration + n <= u64::MAX
        &&& self.params.fail_limit <= u32::MAX || self.fail_streak + n <= u32::MAX
    }
}

/// A board has no more particles than cells.
proof fn lemma_particles_fit(b: Board)
    requires
        b.wf(),
    ensures
        b.pos.len() <= 0x3fff_ffff_ffff_ffff,
{
    law_lit_cells_are_the_particles(b);
    lemma_count_at_most(b.occ);
    assert(b.h * b.w <= i32::MAX * i32::MAX) by (nonlinear_arith)
        requires
            0 <= b.h <= i32::MAX,
            0 <= b.w <= i32::MAX,
    ;
}

proof fn lemma_count_at_most(cells: Seq<bool>)
    ensures
        count_lit(cells) <= cells.len(),
    decreases cells.len(),
{
    if cells.len() > 0 {
        lemma_count_at_most(cells.drop_last());
    }
}

impl<R: Copy> Sim<R> {
    /// Advances the gas by one proposal. Returns whether its moves were made.
    pub fn step<P: Physics<Real = R>>(&mut self, p: &P) -> (took: bool)
        requires
            old(self).wf(),
            old(self).can_run(1),
        ensures
            final(self).wf(),
            final(self).same_scene(*old(self)),
            stepped(*p, old(self)@, final(self)@, took),
    {
        let ghost gas = self@;
        let ghost before = *self;
        if self.pos.len() == 0 {
            self.iteration = self.iteration + 1;
            return false;
        }
        let n = self.pos.len();
        let least: usize = if self.live_batch < n { self.live_batch } else { n };
        let m: usize = if least < 1 { 1 } else { least };
        proof {
            lemma_particles_fit(gas.layout.board());
        }
        let moves = draw_moves(
            self.params.h,
            self.params.w,
            self.params.periodic,
            self.params.step_size,
            &self.occ,
            &self.blocked,
            &self.pos,
            m,
            &mut self.stream,
        );
        self.iteration = self.iteration + 1;
        if moves.idx.len() == 0 {
            self.dead_proposals = self.dead_proposals + 1;
            self.fail_streak = self.fail_streak + 1;
            if self.fail_streak as usize >= self.params.fail_limit {
                self.fail_streak = 0;
                let less = self.live_batch.saturating_sub(self.params.batch_decrement);
                self.live_batch = if less > self.params.batch_min { less } else { self.params.batch_min };
            }
            assert(self@ =~= gas.turned().stalled().read_to(gas.position + 3 * gas.deal().batch));
            assert(moves@.dealt(gas.layout.board(), gas.deal()));
            return false;
        }
        self.fail_streak = 0;
        let de = self.cost(p, &moves);
        self.proposed = self.proposed + 1;
        let down = downhill(p, de);
        let took = if down {
            true
        } else {
            let word = self.stream.next_word();
            lucky(p, de, self.params.temperature, word)
        };
        if took {
            make_moves(self.params.w, &mut self.occ, &mut self.pos, &moves, Ghost(gas.layout.board()));
            self.energy = p.plus(self.energy, de);
            self.accepted = self.accepted + 1;
            proof {
                law_moves_conserve_particles(gas.layout.board(), moves@);
            }
        }
        assert(judged_by(*p, gas, moves@, self@, took, de, down));
        took
    }
}

impl<R: Copy> Sim<R> {
    /// Whether the machine can count `n` iterations more.
    pub fn can_count(&self, n: u64) -> (r: bool)
        ensures
            r == self.can_run(n as int),
    {
        let (streak, limit): (u128, u128) = (self.fail_streak as u128, self.params.fail_limit as u128);
        self.iteration.checked_add(n).is_some() && (limit <= u32::MAX as u128 || streak + n as u128 <= u32::MAX as u128)
    }

    /// Runs `n` iterations.
    pub fn step_many<P: Physics<Real = R>>(&mut self, p: &P, n: u64)
        requires
            old(self).wf(),
            old(self).can_run(n as int),
        ensures
            final(self).wf(),
            final(self).same_scene(*old(self)),
            ran(*p, old(self)@, n as nat, final(self)@),
    {
        let ghost gas = self@;
        let mut i: u64 = 0;
        while i < n
            invariant
                i <= n,
                self.wf(),
                self.same_scene(*old(self)),
                self.can_run(n - i),
                gas == old(self)@,
                ran(*p, gas, i as nat, self@),
            decreases n - i,
        {
            let ghost mid = self@;
            let took = self.step(p);
            proof {
                lemma_step_frame(*p, mid, self@, took);
                assert(stepped(*p, mid, self@, took));
            }
            i = i + 1;
        }
    }

    /// Anneals for `iterations` steps at the current parameters.
    pub fn run<P: Physics<Real = R>>(&mut self, p: &P, iterations: u64)
        requires
            old(self).wf(),
            old(self).can_run(iterations as int),
        ensures
            final(self).wf(),
            final(self).same_scene(*old(self)),
            ran(*p, old(self)@, iterations as nat, final(self)@),
    {
        self.step_many(p, iterations);
    }
}

/// What an iteration leaves alone.
proof fn lemma_step_frame<P: Physics>(p: P, gas: Gas<P::Real>, after: Gas<P::Real>, took: bool)
    requires
        stepped(p, gas, after, took),
        gas.iteration < u64::MAX,
        gas.fail_streak < u32::MAX,
    ensures
        after.iteration == gas.iteration + 1,
        after.fail_streak <= gas.fail_streak + 1,
        after.seed == gas.seed,
        after.layout.params == gas.layout.params,
        after.layout.blocked == gas.layout.blocked,
        after.layout.u_edge == gas.layout.u_edge,
        after.layout.kernel == gas.layout.kernel,
        after.layout.rc == gas.layout.rc,
        after.layout.pos.len() == gas.layout.pos.len(),
{
}

/// No particle stands on a closed cell.
pub open spec fn none_closed_in<R>(layout: Layout<R>) -> bool {
    forall|c: int| 0 <= c < layout.occ.len() && #[trigger] layout.occ[c] ==> !layout.blocked[c]
}

/// An iteration conserves particles: as many cells are lit after it as before,
/// each by one particle, and it moves none onto a closed cell.
pub proof fn law_step_conserves_particles<P: Physics>(p: P, gas: Gas<P::Real>, after: Gas<P::Real>, took: bool)
    requires
        stepped(p, gas, after, took),
        gas.layout.board().wf(),
    ensures
        after.layout.board().wf(),
        after.layout.pos.len() == gas.layout.pos.len(),
        count_lit(after.layout.occ) == count_lit(gas.layout.occ),
        none_closed_in(gas.layout) ==> none_closed_in(after.layout),
{
    let b = gas.layout.board();
    if gas.layout.pos.len() > 0 {
        let moves = choose|moves: Plan| #[trigger]
            moves.dealt(b, gas.deal()) && if moves.idx.len() == 0 {
                after == gas.turned().stalled().read_to(gas.position + 3 * gas.deal().batch) && !took
            } else {
                judged(p, gas, moves, after, took)
            };
        law_dealt_moves_are_legal(b, gas.deal(), moves);
        law_moves_conserve_particles(b, moves);
        if moves.idx.len() > 0 && took && none_closed_in(gas.layout) {
            let came = b.places(moves.new);
            assert forall|c: int| 0 <= c < after.layout.occ.len() && #[trigger] after.layout.occ[c] implies !after.layout.blocked[c] by {
                if came.contains(c) {
                    let i = choose|i: int| 0 <= i < came.len() && came[i] == c;
                    assert(!b.blocked[b.at(moves.new[i])]);
                } else {
                    assert(gas.layout.occ[c]);
                }
            }
        }
    }
}

/// An iteration of a gas that has particles is counted once: its proposal came
/// to moves or died, and only moves can be made. Without particles nothing is
/// proposed. The batch never grows, nor falls below its least size.
pub proof fn law_step_moves_the_counters<P: Physics>(p: P, s0: Sim<P::Real>, s1: Sim<P::Real>, took: bool)
    requires
        s0.wf(),
        s0.can_run(1),
        stepped(p, s0@, s1@, took),
    ensures
        s1.iteration == s0.iteration + 1,
        s1.accepted == s0.accepted + (if took {
            1int
        } else {
            0int
        }),
        (s1.proposed - s0.proposed) + (s1.dead_proposals - s0.dead_proposals) == (if s0.pos@.len() > 0 {
            1int
        } else {
            0int
        }),
        s0.proposed <= s1.proposed,
        s0.dead_proposals <= s1.dead_proposals,
        took ==> s1.proposed == s0.proposed + 1,
        s1.dead_proposals > s0.dead_proposals ==> s1@.layout == s0@.layout && s1.energy == s0.energy,
        s0.params.batch_min <= s1.live_batch <= s0.live_batch,
{
}

/// Annealing conserves particles: however long it runs, as many cells are lit
/// as at the start, each by one particle, and none that was not already there
/// on a closed cell.
pub proof fn law_annealing_conserves_particles<P: Physics>(p: P, gas: Gas<P::Real>, n: nat, after: Gas<P::Real>)
    requires
        ran(p, gas, n, after),
        gas.layout.board().wf(),
    ensures
        after.layout.board().wf(),
        after.layout.pos.len() == gas.layout.pos.len(),
        count_lit(after.layout.occ) == count_lit(gas.layout.occ),
        none_closed_in(gas.layout) ==> none_closed_in(after.layout),
    decreases n,
{
    if n > 0 {
        let (mid, took) = choose|mid: Gas<P::Real>, took: bool| #[trigger]
            stepped(p, mid, after, took) && ran(p, gas, (n - 1) as nat, mid);
        law_annealing_conserves_particles(p, gas, (n - 1) as nat, mid);
        law_step_conserves_particles(p, mid, after, took);
    }
}

/// Annealing counts its iterations, and leaves the parameters, lines and paint,
/// the closed cells and the fixed potential alone.
pub proof fn law_annealing_counts_iterations<P: Physics>(p: P, gas: Gas<P::Real>, n: nat, after: Gas<P::Real>)
    requires
        ran(p, gas, n, after),
        gas.iteration + n <= u64::MAX,
    ensures
        after.iteration == gas.iteration + n,
        after.seed == gas.seed,
        after.scene == gas.scene,
        after.layout.params == gas.layout.params,
        after.layout.blocked == gas.layout.blocked,
        after.layout.u_edge == gas.layout.u_edge,
    decreases n,
{
    if n > 0 {
        let (mid, took) = choose|mid: Gas<P::Real>, took: bool| #[trigger]
            stepped(p, mid, after, took) && ran(p, gas, (n - 1) as nat, mid);
        law_annealing_counts_iterations(p, gas, (n - 1) as nat, mid);
    }
}

/// Runs can be joined: `m` iterations after `n` are `n + m` iterations.
pub proof fn law_runs_join<P: Physics>(p: P, gas: Gas<P::Real>, n: nat, mid: Gas<P::Real>, m: nat, after: Gas<P::Real>)
    requires
        ran(p, gas, n, mid),
        ran(p, mid, m, after),
    ensures
        ran(p, gas, n + m, after),
    decreases m,
{
    if m > 0 {
        let (last, took) = choose|last: Gas<P::Real>, took: bool| #[trigger]
            stepped(p, last, after, took) && ran(p, mid, (m - 1) as nat, last);
        law_runs_join(p, gas, n, mid, (m - 1) as nat, last);
        assert(stepped(p, last, after, took));
    }
}

/// Every operation that annealing calls on has one outcome.
pub open spec fn settled<P: Physics>(p: P) -> bool {
    &&& potentials_settled(p)
    &&& forall|a: P::Real, b: P::Real, r: P::Real, s: P::Real| #[trigger]
        call_ensures(P::plus, (&p, a, b), r) && #[trigger] call_ensures(P::plus, (&p, a, b), s) ==> r == s
    &&& forall|a: P::Real, b: P::Real, r: bool, s: bool| #[trigger]
        call_ensures(P::at_most, (&p, a, b), r) && #[trigger] call_ensures(P::at_most, (&p, a, b), s) ==> r == s
    &&& forall|a: P::Real, b: P::Real, r: P::Real, s: P::Real| #[trigger]
        call_ensures(P::greater, (&p, a, b), r) && #[trigger] call_ensures(P::greater, (&p, a, b), s) ==> r == s
    &&& forall|r: P::Real, s: P::Real| #[trigger]
        call_ensures(P::least_temperature, (&p,), r) && #[trigger] call_ensures(P::least_temperature, (&p,), s) ==> r == s
    &&& forall|r: P::Real, s: P::Real| #[trigger]
        call_ensures(P::boltzmann_constant, (&p,), r) && #[trigger] call_ensures(P::boltzmann_constant, (&p,), s) ==> r == s
    &&& forall|word: u64, r: P::Real, s: P::Real| #[trigger]
        call_ensures(P::uniform, (&p, word), r) && #[trigger] call_ensures(P::uniform, (&p, word), s) ==> r == s
}

/// A sum has then one value.
pub proof fn lemma_sum_settled<P: Physics>(p: P, terms: Seq<P::Real>, r: P::Real, s: P::Real)
    requires
        settled(p),
        summed(p, terms, r),
        summed(p, terms, s),
    ensures
        r == s,
{
    let z = choose|z: P::Real| #[trigger] call_ensures(P::zero, (&p,), z) && folded(plus_step(p), z, terms, r);
    let y = choose|z: P::Real| #[trigger] call_ensures(P::zero, (&p,), z) && folded(plus_step(p), z, terms, s);
    assert(z == y);
    lemma_folded_same(plus_step(p), z, terms, r, s);
}

proof fn lemma_bound_settled<P: Physics>(p: P, lay: Layout<P::Real>, sites: Seq<Site>, mask: Seq<Site>, r: P::Real, s: P::Real)
    requires
        settled(p),
        bound_by(p, lay, sites, mask, r),
        bound_by(p, lay, sites, mask, s),
    ensures
        r == s,
{
    let r2s = lay.pairs_from(sites, 0, 1);
    let (c1, q1) = choose|c: P::Real, q: P::Real|
        crowded(p, lay, sites, mask, c) && paired(p, lay.params, r2s, q) && #[trigger] call_ensures(P::plus, (&p, c, q), r);
    let (c2, q2) = choose|c: P::Real, q: P::Real|
        crowded(p, lay, sites, mask, c) && paired(p, lay.params, r2s, q) && #[trigger] call_ensures(P::plus, (&p, c, q), s);
    let a1 = choose|parts: Seq<P::Real>| #[trigger]
        summed(p, parts, c1) && parts.len() == sites.len() && (forall|i: int|
            0 <= i < sites.len() ==> summed(p, lay.surroundings(sites[i], mask), #[trigger] parts[i]));
    let a2 = choose|parts: Seq<P::Real>| #[trigger]
        summed(p, parts, c2) && parts.len() == sites.len() && (forall|i: int|
            0 <= i < sites.len() ==> summed(p, lay.surroundings(sites[i], mask), #[trigger] parts[i]));
    assert forall|i: int| 0 <= i < a1.len() implies a1[i] == a2[i] by {
        lemma_sum_settled(p, lay.surroundings(sites[i], mask), a1[i], a2[i]);
    }
    assert(a1 =~= a2);
    lemma_sum_settled(p, a1, c1, c2);
    let b1 = choose|parts: Seq<P::Real>| #[trigger]
        summed(p, parts, q1) && parts.len() == r2s.len() && (forall|k: int|
            0 <= k < parts.len() ==> potential_is(p, r2s[k], lay.params, true, #[trigger] parts[k]));
    let b2 = choose|parts: Seq<P::Real>| #[trigger]
        summed(p, parts, q2) && parts.len() == r2s.len() && (forall|k: int|
            0 <= k < parts.len() ==> potential_is(p, r2s[k], lay.params, true, #[trigger] parts[k]));
    assert forall|k: int| 0 <= k < b1.len() implies b1[k] == b2[k] by {
        lemma_potential_settled(p, r2s[k], lay.params, true, b1[k], b2[k]);
    }
    assert(b1 =~= b2);
    lemma_sum_settled(p, b1, q1, q2);
}

proof fn lemma_cost_settled<P: Physics>(p: P, lay: Layout<P::Real>, moves: Plan, r: P::Real, s: P::Real)
    requires
        settled(p),
        costs(p, lay, moves, r),
        costs(p, lay, moves, s),
    ensures
        r == s,
{
    let (o1, n1, d1) = choose|e_old: P::Real, e_new: P::Real, du: P::Real| #[trigger] costs_by(p, lay, moves, r, e_old, e_new, du);
    let (o2, n2, d2) = choose|e_old: P::Real, e_new: P::Real, du: P::Real| #[trigger] costs_by(p, lay, moves, s, e_old, e_new, du);
    lemma_bound_settled(p, lay, moves.old, moves.old, o1, o2);
    lemma_bound_settled(p, lay, moves.new, moves.old, n1, n2);
    let (from, to) = (moves.old, moves.new);
    let a1 = choose|parts: Seq<P::Real>| #[trigger]
        summed(p, parts, d1) && parts.len() == from.len() && (forall|i: int|
            0 <= i < from.len() ==> call_ensures(
                P::minus,
                (&p, lay.u_edge[lay.board().at(to[i])], lay.u_edge[lay.board().at(from[i])]),
                #[trigger] parts[i],
            ));
    let a2 = choose|parts: Seq<P::Real>| #[trigger]
        summed(p, parts, d2) && parts.len() == from.len() && (forall|i: int|
            0 <= i < from.len() ==> call_ensures(
                P::minus,
                (&p, lay.u_edge[lay.board().at(to[i])], lay.u_edge[lay.board().at(from[i])]),
                #[trigger] parts[i],
            ));
    assert(a1 =~= a2);
    lemma_sum_settled(p, a1, d1, d2);
}

/// A deal comes to one plan.
proof fn lemma_one_plan(b: Board, d: Deal, one: Plan, two: Plan)
    requires
        one.dealt(b, d),
        two.dealt(b, d),
    ensures
        one == two,
{
    let kept = d.survivors(b, d.batch);
    assert forall|i: int| 0 <= i < kept.len() implies one.idx[i] == two.idx[i] && one.old[i] == two.old[i] && one.new[i]
        == two.new[i] by {
        assert(one.idx[i] == d.pick(b, kept[i]));
    }
    assert(one =~= two);
}

proof fn lemma_step_settled<P: Physics>(
    p: P,
    gas: Gas<P::Real>,
    one: Gas<P::Real>,
    took_one: bool,
    two: Gas<P::Real>,
    took_two: bool,
)
    requires
        settled(p),
        stepped(p, gas, one, took_one),
        stepped(p, gas, two, took_two),
    ensures
        one == two,
        took_one == took_two,
{
    if gas.layout.pos.len() > 0 {
        let (b, d) = (gas.layout.board(), gas.deal());
        let m1 = choose|moves: Plan| #[trigger]
            moves.dealt(b, d) && if moves.idx.len() == 0 {
                one == gas.turned().stalled().read_to(gas.position + 3 * gas.deal().batch) && !took_one
            } else {
                judged(p, gas, moves, one, took_one)
            };
        let m2 = choose|moves: Plan| #[trigger]
            moves.dealt(b, d) && if moves.idx.len() == 0 {
                two == gas.turned().stalled().read_to(gas.position + 3 * gas.deal().batch) && !took_two
            } else {
                judged(p, gas, moves, two, took_two)
            };
        lemma_one_plan(b, d, m1, m2);
        if m1.idx.len() > 0 {
            let (e1, w1) = choose|de: P::Real, down: bool| #[trigger] judged_by(p, gas, m1, one, took_one, de, down);
            let (e2, w2) = choose|de: P::Real, down: bool| #[trigger] judged_by(p, gas, m1, two, took_two, de, down);
            lemma_cost_settled(p, gas.layout, m1, e1, e2);
        }
    }
}

/// Annealing can be repeated: from one start, with arithmetic that has one
/// outcome, as many iterations lead to one state. The start holds the seed and
/// how far its words have been read, so nothing else is drawn on.
pub proof fn law_annealing_can_be_repeated<P: Physics>(p: P, gas: Gas<P::Real>, n: nat, one: Gas<P::Real>, two: Gas<P::Real>)
    requires
        settled(p),
        ran(p, gas, n, one),
        ran(p, gas, n, two),
    ensures
        one == two,
    decreases n,
{
    if n > 0 {
        let (m1, t1) = choose|mid: Gas<P::Real>, took: bool| #[trigger]
            stepped(p, mid, one, took) && ran(p, gas, (n - 1) as nat, mid);
        let (m2, t2) = choose|mid: Gas<P::Real>, took: bool| #[trigger]
            stepped(p, mid, two, took) && ran(p, gas, (n - 1) as nat, mid);
        law_annealing_can_be_repeated(p, gas, (n - 1) as nat, m1, m2);
        lemma_step_settled(p, m1, one, t1, two, t2);
    }
}

} // verus!

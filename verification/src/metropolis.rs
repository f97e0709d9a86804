//! What an iteration does: which moves it proposes, and when it makes them.

use crate::anneal::{judged, judged_by, stepped};
use crate::balance::{law_moves_cost_the_change_of_energy, moved, sound};
use crate::exact::energy;
use crate::numbers::{computes, larger, lemma_lucky, Numbers};
use crate::physics::Physics;
use crate::proposal::{law_dealt_moves_are_legal, lemma_shuffled, lemma_survivors, Board, Deal, Plan};
use crate::sim::{Gas, Sim};
use crate::stream::pcg_word;
use vstd::prelude::*;

verus! {

/// How many particles a proposal picks: as many as the batch has, no more than there
/// are, and one at least.
pub open spec fn is_batch<R>(gas: Gas<R>, m: int) -> bool {
    let n = gas.layout.pos.len();
    &&& 1 <= m <= n
    &&& m == n || m >= gas.live_batch
    &&& m == 1 || m <= gas.live_batch
}

/// An iteration goes by the Metropolis rule. The moves that it comes to are made if
/// they lower the energy of the gas or keep it, and else if the next random number is
/// below the Boltzmann factor of the rise. Moves that are made change the energy on
/// the account by that of the gas; those that are not change nothing.
pub proof fn law_iterations_go_by_the_metropolis_rule<P: Physics>(
    p: P,
    n: Numbers<P::Real>,
    gas: Gas<P::Real>,
    m: int,
    after: Gas<P::Real>,
    took: bool,
) -> (moves: Plan)
    requires
        computes(p, n),
        sound(p, n.val, gas.layout),
        gas.layout.pos.len() > 0,
        is_batch(gas, m),
        gas.position + 3 * m + 1 <= u128::MAX,
        stepped(p, gas, after, took),
    ensures
        moves.dealt(gas.layout.board(), gas.deal()),
        moves.legal(gas.layout.board()),
        moves.idx.len() == 0 ==> !took && after.position == gas.position + 3 * m,
        moves.idx.len() > 0 ==> {
            let rise = energy(n.val, moved(gas.layout, moves)) - energy(n.val, gas.layout);
            let word = pcg_word(gas.seed, (gas.position + 3 * m) as u128);
            let heat = n.kb * larger((n.val)(gas.layout.params.temperature), n.least);
            &&& took <==> rise <= 0 as real || (n.rand)(word) < (n.exp)((-rise) / heat)
            &&& took ==> (n.val)(after.energy) == (n.val)(gas.energy) + rise
            &&& after.position == gas.position + 3 * m + (if rise <= 0 as real {
                0int
            } else {
                1int
            })
        },
        took ==> after.layout == moved(gas.layout, moves),
        !took ==> after.layout == gas.layout && after.energy == gas.energy,
{
    let b = gas.layout.board();
    assert(gas.deal().batch == m);
    let moves = choose|moves: Plan| #[trigger]
        moves.dealt(b, gas.deal()) && if moves.idx.len() == 0 {
            after == gas.turned().stalled().read_to(gas.position + 3 * gas.deal().batch) && !took
        } else {
            judged(p, gas, moves, after, took)
        };
    law_dealt_moves_are_legal(b, gas.deal(), moves);
    if moves.idx.len() > 0 {
        let (de, down) = choose|de: P::Real, down: bool| #[trigger] judged_by(p, gas, moves, after, took, de, down);
        law_moves_cost_the_change_of_energy(p, n.val, gas.layout, moves, de);
        assert(down <==> (n.val)(de) <= 0 as real) by {
            let zero = choose|zero: P::Real| #[trigger]
                call_ensures(P::at_most, (&p, de, zero), down) && call_ensures(P::zero, (&p,), zero);
        }
        let word = pcg_word(gas.seed, (gas.position + 3 * m) as u128);
        if !down {
            lemma_lucky(p, n, de, gas.layout.params.temperature, word, took);
        }
    }
    moves
}

/// Moves that are made put each of their particles on its new site, and leave the
/// others where they are; a cell is lit if and only if a particle stands on it.
pub proof fn law_moves_move_their_particles<R>(gas: Gas<R>, moves: Plan, i: int, k: int)
    requires
        gas.layout.board().wf(),
        moves.legal(gas.layout.board()),
        0 <= i < moves.idx.len(),
        0 <= k < gas.layout.pos.len(),
    ensures
        moved(gas.layout, moves).pos.len() == gas.layout.pos.len(),
        moved(gas.layout, moves).pos[moves.idx[i] as int] == moves.new[i],
        (forall|j: int| 0 <= j < moves.idx.len() ==> #[trigger] moves.idx[j] != k) ==> moved(gas.layout, moves).pos[k]
            == gas.layout.pos[k],
        moved(gas.layout, moves).board().wf(),
{
    let b = gas.layout.board();
    crate::proposal::law_moves_conserve_particles(b, moves);
    assert(moved(gas.layout, moves).board() == b.after(moves));
    let t = moves.idx[i] as int;
    assert(moves.takes(t));
    assert(moves.idx[moves.slot(t)] == t);
}

/// A displacement along one axis leads from `from` to `to`, around a ring of `n`
/// cells or between walls.
pub open spec fn leads(from: int, d: int, to: int, n: int, periodic: bool) -> bool {
    &&& 0 <= to < n
    &&& if periodic {
        (to - from - d) % n == 0
    } else {
        to == from + d
    }
}

/// Slot `i` of a proposal on board `b` is dealt words by which it hops by `dy`
/// and `dx`.
pub open spec fn hops(b: Board, d: Deal, i: int, dy: int, dx: int) -> bool {
    let range = 2 * b.hop + 1;
    &&& -b.hop <= dy <= b.hop
    &&& -b.hop <= dx <= b.hop
    &&& (dy + b.hop - pcg_word(d.seed, (d.position + d.batch + 2 * i) as u128)) % range == 0
    &&& (dx + b.hop - pcg_word(d.seed, (d.position + d.batch + 2 * i + 1) as u128)) % range == 0
}

proof fn lemma_shift(word: int, hop: int, d: int)
    requires
        hop >= 0,
        -hop <= d <= hop,
        (d + hop - word) % (2 * hop + 1) == 0,
    ensures
        d == word % (2 * hop + 1) - hop,
{
    let n = 2 * hop + 1;
    vstd::arithmetic::div_mod::lemma_fundamental_div_mod(d + hop - word, n);
    let k = (d + hop - word) / n;
    assert((-k) * n == -(n * k)) by (nonlinear_arith);
    vstd::arithmetic::div_mod::lemma_fundamental_div_mod_converse(word, n, -k, d + hop);
}

pub proof fn lemma_turned_onto(v: int, n: int)
    requires
        n > 0,
    ensures
        (v % n - v) % n == 0,
{
    vstd::arithmetic::div_mod::lemma_fundamental_div_mod(v, n);
    vstd::arithmetic::div_mod::lemma_mod_multiples_basic(-(v / n), n);
    assert(v % n - v == -(v / n) * n) by (nonlinear_arith)
        requires
            v == n * (v / n) + v % n,
    ;
}

/// A slot that hops by `dy` and `dx`, not both of them nothing, lands if and only if
/// that leads to an open cell, and then on that cell.
pub proof fn law_particles_hop_no_further_than_a_step(b: Board, d: Deal, i: int, dy: int, dx: int)
    requires
        b.wf(),
        d.batch <= b.pos.len(),
        0 <= i < d.batch,
        hops(b, d, i, dy, dx),
    ensures
        ({
            let (from, to) = (d.origin(b, i), d.target(b, i));
            &&& d.lands(b, i) ==> (dy != 0 || dx != 0) && leads(from.0 as int, dy, to.0 as int, b.h, b.periodic) && leads(
                from.1 as int,
                dx,
                to.1 as int,
                b.w,
                b.periodic,
            ) && !b.blocked[b.at(to)]
            &&& forall|y: i32, x: i32|
                (dy != 0 || dx != 0) && leads(from.0 as int, dy, y as int, b.h, b.periodic) && leads(
                    from.1 as int,
                    dx,
                    x as int,
                    b.w,
                    b.periodic,
                ) && !b.blocked[#[trigger] b.at((y, x))] ==> d.lands(b, i) && to == (y, x)
        }),
{
    lemma_shift(d.word(d.batch + 2 * i) as int, b.hop, dy);
    lemma_shift(d.word(d.batch + 2 * i + 1) as int, b.hop, dx);
    lemma_shuffled(d, b.pos.len() as int, d.batch);
    let (from, to) = (d.origin(b, i), d.target(b, i));
    let k = d.pick(b, i);
    assert(b.on_board(b.pos[k]));
    let (ay, ax) = (from.0 + dy, from.1 + dx);
    assert(d.aim(b, i) == (ay, ax));
    if b.periodic {
        lemma_turned_onto(ay, b.h);
        lemma_turned_onto(ax, b.w);
    }
    assert forall|y: i32, x: i32|
        (dy != 0 || dx != 0) && leads(from.0 as int, dy, y as int, b.h, b.periodic) && leads(
            from.1 as int,
            dx,
            x as int,
            b.w,
            b.periodic,
        ) && !b.blocked[#[trigger] b.at((y, x))] implies d.lands(b, i) && to == (y, x) by {
        if b.periodic {
            lemma_turned_alike(y as int, ay, b.h);
            lemma_turned_alike(x as int, ax, b.w);
        }
    }
}

pub proof fn lemma_turned_alike(y: int, v: int, n: int)
    requires
        0 <= y < n,
        (y - v) % n == 0,
    ensures
        y == v % n,
{
    vstd::arithmetic::div_mod::lemma_fundamental_div_mod(y - v, n);
    let k = (y - v) / n;
    assert((-k) * n == -(n * k)) by (nonlinear_arith);
    vstd::arithmetic::div_mod::lemma_fundamental_div_mod_converse(v, n, -k, y);
}

/// Slot `i` is among the moves.
pub open spec fn is_made(b: Board, d: Deal, i: int) -> bool {
    d.survivors(b, d.batch).contains(i)
}

/// Which slots move. Of slots that land on one cell only the first may move. It does
/// if the cell is free, or if the particle there moves too; if a particle stays
/// there, it does not.
pub proof fn law_slots_move_where_there_is_room(b: Board, d: Deal, i: int, j: int)
    requires
        b.wf(),
        d.batch <= b.pos.len(),
        0 <= i < d.batch,
        0 <= j < d.batch,
    ensures
        is_made(b, d, i) ==> d.lands(b, i),
        j < i && d.lands(b, j) && d.target(b, j) == d.target(b, i) ==> !is_made(b, d, i),
        d.lands(b, i) && (forall|k: int| 0 <= k < i && #[trigger] d.lands(b, k) ==> d.target(b, k) != d.target(b, i)) ==> {
            &&& !b.occ[b.at(d.target(b, i))] ==> is_made(b, d, i)
            &&& d.target(b, i) == d.origin(b, j) && is_made(b, d, j) ==> is_made(b, d, i)
            &&& d.target(b, i) == d.origin(b, j) && !is_made(b, d, j) ==> !is_made(b, d, i)
        },
        b.occ[b.at(d.target(b, i))] && (forall|k: int| 0 <= k < d.batch ==> #[trigger] d.origin(b, k) != d.target(b, i))
            ==> !is_made(b, d, i),
{
    let kept = d.survivors(b, d.batch);
    let n = b.pos.len() as int;
    lemma_survivors(b, d, d.batch);
    lemma_shuffled(d, n, d.batch);
    let at = d.origin(b, j);
    assert(b.on_board(b.pos[d.pick(b, j)]) && b.lit(b.pos[d.pick(b, j)]));
    if is_made(b, d, i) {
        let place = choose|place: int| 0 <= place < kept.len() && kept[place] == i;
        assert(d.survives(b, i));
        let set = choose|set: Set<int>| #[trigger] d.movable(b, set) && set.contains(i);
        assert(d.claims(b, i));
        if b.lit(d.target(b, i)) {
            let k = choose|k: int| #[trigger] set.contains(k) && d.origin(b, k) == d.target(b, i);
            assert(0 <= k < d.batch && d.survives(b, k));
            assert(kept.contains(k));
            if d.target(b, i) == at {
                // One particle stands on the cell, so one slot leaves it.
                assert(d.pick(b, k) == d.pick(b, j)) by {
                    assert(b.pos[d.pick(b, k)] == b.pos[d.pick(b, j)]);
                }
                assert(k == j);
            }
        }
    }
    if d.claims(b, i) {
        if !b.lit(d.target(b, i)) {
            let set = Set::<int>::empty().insert(i);
            assert(d.movable(b, set));
            assert(d.survives(b, i));
            assert(kept.contains(i));
        }
        if d.target(b, i) == at && is_made(b, d, j) {
            let place = choose|place: int| 0 <= place < kept.len() && kept[place] == j;
            assert(d.survives(b, j));
            let set = choose|set: Set<int>| #[trigger] d.movable(b, set) && set.contains(j);
            let more = set.insert(i);
            assert forall|k: int| #[trigger] more.contains(k) implies {
                &&& 0 <= k < d.batch
                &&& d.claims(b, k)
                &&& b.lit(d.target(b, k)) ==> exists|l: int| #[trigger] more.contains(l) && d.origin(b, l) == d.target(b, k)
            } by {
                if k == i {
                    assert(more.contains(j));
                } else {
                    assert(set.contains(k));
                    if b.lit(d.target(b, k)) {
                        let l = choose|l: int| #[trigger] set.contains(l) && d.origin(b, l) == d.target(b, k);
                        assert(more.contains(l));
                    }
                }
            }
            assert(d.movable(b, more));
            assert(d.survives(b, i));
            assert(kept.contains(i));
        }
    }
}

/// Later swaps leave earlier places alone.
proof fn lemma_picked_for_good(d: Deal, n: int, i: nat, m: nat, k: int)
    requires
        0 <= k < i <= m <= n,
    ensures
        d.shuffled(n, m)[k] == d.shuffled(n, i)[k],
    decreases m,
{
    if m > i {
        lemma_picked_for_good(d, n, i, (m - 1) as nat, k);
        lemma_shuffled(d, n, (m - 1) as nat);
        let a = m - 1;
        assert(0 <= (d.word(a) as usize) as int % (n - a) < n - a);
    }
}

/// Alike words swap alike.
proof fn lemma_shuffled_alike(one: Deal, two: Deal, n: int, i: nat)
    requires
        i <= n,
        forall|k: int| 0 <= k < i ==> #[trigger] one.word(k) == two.word(k),
    ensures
        one.shuffled(n, i) == two.shuffled(n, i),
    decreases i,
{
    if i > 0 {
        lemma_shuffled_alike(one, two, n, (i - 1) as nat);
        assert(one.word(i - 1) == two.word(i - 1));
    } else {
        assert(one.shuffled(n, i) =~= two.shuffled(n, i));
    }
}

/// A proposal picks at random, and no particle twice. The first pick is the word, by
/// turns around all particles. Where two deals have picked alike so far, the next
/// picks are the same if and only if their words are, by turns around the particles
/// that are left: each of those is picked by as many words.
pub proof fn law_particles_are_picked_evenly(b: Board, one: Deal, two: Deal, i: int)
    requires
        one.batch == two.batch <= b.pos.len() <= usize::MAX,
        0 <= i < one.batch,
        forall|k: int| 0 <= k < i ==> #[trigger] one.word(k) == two.word(k),
    ensures
        0 <= one.pick(b, i) < b.pos.len(),
        one.pick(b, 0) == (pcg_word(one.seed, one.position) as usize) as int % b.pos.len() as int,
        forall|k: int| 0 <= k < i ==> one.pick(b, i) != #[trigger] one.pick(b, k),
        one.pick(b, i) == two.pick(b, i) <==> (one.word(i) as usize) as int % (b.pos.len() - i) == (two.word(i) as usize) as int % (
        b.pos.len() - i),
{
    let n = b.pos.len() as int;
    lemma_shuffled(one, n, one.batch);
    lemma_picked_for_good(one, n, (i + 1) as nat, one.batch, i);
    lemma_picked_for_good(two, n, (i + 1) as nat, two.batch, i);
    lemma_picked_for_good(one, n, 1, one.batch, 0);
    lemma_shuffled_alike(one, two, n, i as nat);
    lemma_shuffled(one, n, i as nat);
    let before = one.shuffled(n, i as nat);
    let (u, v) = (i + (one.word(i) as usize) as int % (n - i), i + (two.word(i) as usize) as int % (n - i));
    assert(i <= u < n && i <= v < n);
    assert(one.shuffled(n, (i + 1) as nat)[i] == before[u]);
    assert(two.shuffled(n, (i + 1) as nat)[i] == before[v]);
    assert(one.shuffled(n, 1)[0] == (one.word(0) as usize) as int % n) by {
        let first = one.shuffled(n, 0);
        let c = (one.word(0) as usize) as int % n;
        assert(0 <= c < n);
        assert(first[c] == c);
    }
}

/// The batch shrinks by and by: a proposal that came to moves leaves it as it is and
/// ends the row of failures; one that died makes the row longer by one, until it is
/// as long as the limit, when it starts anew and the batch gets smaller by the
/// decrement, as far as its least size.
pub proof fn law_failures_in_a_row_shrink_the_batch<P: Physics>(p: P, s0: Sim<P::Real>, s1: Sim<P::Real>, took: bool)
    requires
        s0.wf(),
        s0.can_run(1),
        s0.pos@.len() > 0,
        stepped(p, s0@, s1@, took),
    ensures
        s1.proposed > s0.proposed ==> s1.fail_streak == 0 && s1.live_batch == s0.live_batch,
        s1.dead_proposals > s0.dead_proposals ==> {
            let limit = s0.params.fail_limit;
            &&& s0.fail_streak + 1 < limit ==> s1.fail_streak == s0.fail_streak + 1 && s1.live_batch == s0.live_batch
            &&& s0.fail_streak + 1 >= limit ==> s1.fail_streak == 0
            &&& s0.fail_streak + 1 >= limit && s0.live_batch >= s0.params.batch_decrement + s0.params.batch_min ==> s1.live_batch
                == s0.live_batch - s0.params.batch_decrement
            &&& s0.fail_streak + 1 >= limit && s0.live_batch < s0.params.batch_decrement + s0.params.batch_min ==> s1.live_batch
                == s0.params.batch_min
        },
        s1.proposed > s0.proposed || s1.dead_proposals > s0.dead_proposals,
{
}

} // verus!

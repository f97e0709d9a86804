//! How little a cold gas climbs.

use crate::anneal::{judged, judged_by, ran, stepped};
use crate::formulas::{lucky_by, odds_by, thermal_by};
use crate::physics::Physics;
use crate::proposal::Plan;
use crate::sim::Gas;
use vstd::prelude::*;

verus! {

/// Sums, products, shares and order are exact on the numbers that `val` reads
/// off, random numbers are not negative, the odds of what lies more than
/// `depth` thermal energies up read as nothing, and the physical constants read
/// `kb` and `least`.
pub open spec fn chills<P: Physics>(p: P, val: spec_fn(P::Real) -> real, depth: real, kb: real, least: real) -> bool {
    &&& depth >= 0 as real && kb > 0 as real && least > 0 as real
    &&& forall|r: P::Real| #[trigger] call_ensures(P::zero, (&p,), r) ==> val(r) == 0 as real
    &&& forall|r: P::Real| #[trigger] call_ensures(P::boltzmann_constant, (&p,), r) ==> val(r) == kb
    &&& forall|r: P::Real| #[trigger] call_ensures(P::least_temperature, (&p,), r) ==> val(r) == least
    &&& forall|a: P::Real, b: P::Real, r: P::Real| #[trigger]
        call_ensures(P::plus, (&p, a, b), r) ==> val(r) == val(a) + val(b)
    &&& forall|a: P::Real, b: P::Real, r: P::Real| #[trigger]
        call_ensures(P::minus, (&p, a, b), r) ==> val(r) == val(a) - val(b)
    &&& forall|a: P::Real, b: P::Real, r: P::Real| #[trigger]
        call_ensures(P::times, (&p, a, b), r) ==> val(r) == val(a) * val(b)
    &&& forall|a: P::Real, b: P::Real, r: P::Real| #[trigger]
        call_ensures(P::quotient, (&p, a, b), r) && val(b) > 0 as real ==> val(r) * val(b) == val(a)
    &&& forall|a: P::Real, b: P::Real, r: P::Real| #[trigger]
        call_ensures(P::greater, (&p, a, b), r) ==> val(r) == (if val(a) >= val(b) {
            val(a)
        } else {
            val(b)
        })
    &&& forall|a: P::Real, b: P::Real, r: bool| #[trigger] call_ensures(P::at_most, (&p, a, b), r) ==> r == (val(a) <= val(b))
    &&& forall|a: P::Real, b: P::Real, r: bool| #[trigger] call_ensures(P::exceeds, (&p, a, b), r) ==> r == (val(a) > val(b))
    &&& forall|word: u64, r: P::Real| #[trigger] call_ensures(P::uniform, (&p, word), r) ==> val(r) >= 0 as real
    &&& forall|x: P::Real, r: P::Real| #[trigger]
        call_ensures(P::exponential, (&p, x), r) && val(x) < -depth ==> val(r) <= 0 as real
}

/// The most that an iteration at the temperature `t` can climb.
pub open spec fn climb(depth: real, kb: real, least: real, t: real) -> real {
    depth * (kb * (if t >= least {
        t
    } else {
        least
    }))
}

/// An iteration climbs no more than `depth` thermal energies. At zero
/// temperature those are the energies of the least temperature, so that the gas
/// goes downhill but for that much.
pub proof fn law_step_climbs_little<P: Physics>(
    p: P,
    val: spec_fn(P::Real) -> real,
    depth: real,
    kb: real,
    least: real,
    gas: Gas<P::Real>,
    after: Gas<P::Real>,
    took: bool,
)
    requires
        chills(p, val, depth, kb, least),
        stepped(p, gas, after, took),
    ensures
        val(after.energy) <= val(gas.energy) + climb(depth, kb, least, val(gas.layout.params.temperature)),
{
    let warmth = if val(gas.layout.params.temperature) >= least {
        val(gas.layout.params.temperature)
    } else {
        least
    };
    let heat = kb * warmth;
    assert(heat > 0 as real) by (nonlinear_arith)
        requires
            heat == kb * warmth,
            kb > 0 as real,
            warmth > 0 as real,
    ;
    assert(depth * heat >= 0 as real) by (nonlinear_arith)
        requires
            depth >= 0 as real,
            heat > 0 as real,
    ;
    if took {
        let moves = choose|moves: Plan| #[trigger]
            moves.dealt(gas.layout.board(), gas.deal()) && if moves.idx.len() == 0 {
                after == gas.turned().stalled().read_to(gas.position + 3 * gas.deal().batch) && !took
            } else {
                judged(p, gas, moves, after, took)
            };
        let (de, down) = choose|de: P::Real, down: bool| #[trigger] judged_by(p, gas, moves, after, took, de, down);
        if down {
            let zero = choose|zero: P::Real| #[trigger]
                call_ensures(P::at_most, (&p, de, zero), down) && call_ensures(P::zero, (&p,), zero);
            assert(val(de) <= 0 as real);
        } else {
            let t = gas.layout.params.temperature;
            let word = gas.deal().word((3 * gas.deal().batch) as int);
            let (kt, r, odds) = choose|kt: P::Real, r: P::Real, odds: P::Real| #[trigger]
                lucky_by(p, de, t, word, took, kt, r, odds);
            let (low, warm, k) = choose|low: P::Real, warm: P::Real, k: P::Real| #[trigger] thermal_by(p, t, kt, low, warm, k);
            let (zero, gain, x) = choose|zero: P::Real, gain: P::Real, x: P::Real| #[trigger]
                odds_by(p, de, kt, odds, zero, gain, x);
            assert(val(kt) == heat);
            assert(val(x) >= -depth);
            let (xv, cost) = (val(x), val(de));
            assert(cost <= depth * heat) by (nonlinear_arith)
                requires
                    xv * heat == -cost,
                    xv >= -depth,
                    heat > 0 as real,
            ;
        }
    }
}

/// However long it runs, a gas climbs no more than that for each iteration.
pub proof fn law_annealing_climbs_little<P: Physics>(
    p: P,
    val: spec_fn(P::Real) -> real,
    depth: real,
    kb: real,
    least: real,
    gas: Gas<P::Real>,
    n: nat,
    after: Gas<P::Real>,
)
    requires
        chills(p, val, depth, kb, least),
        ran(p, gas, n, after),
    ensures
        after.layout.params == gas.layout.params,
        val(after.energy) <= val(gas.energy) + (n as int) as real * climb(depth, kb, least, val(gas.layout.params.temperature)),
    decreases n,
{
    let most = climb(depth, kb, least, val(gas.layout.params.temperature));
    if n > 0 {
        let (mid, took) = choose|mid: Gas<P::Real>, took: bool| #[trigger]
            stepped(p, mid, after, took) && ran(p, gas, (n - 1) as nat, mid);
        law_annealing_climbs_little(p, val, depth, kb, least, gas, (n - 1) as nat, mid);
        law_step_climbs_little(p, val, depth, kb, least, mid, after, took);
        let (less, all) = ((n - 1) as real, (n as int) as real);
        assert(all * most == less * most + most) by (nonlinear_arith)
            requires
                all == less + 1 as real,
        ;
    } else {
        assert(0 as real * most == 0 as real) by (nonlinear_arith);
    }
}

} // verus!

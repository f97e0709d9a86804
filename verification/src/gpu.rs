//! Tiled sweeps on a device: what is handed to it, and what comes back.

use crate::convolve::field_fits;
use crate::formulas::{coldness, coldness_is};
use crate::kernel::{has_table, side, table_fits};
use crate::lattice::count_lit;
use crate::offsets::{energy_by_steps, lists, offset_table, total_energy_from_offsets, Steps};
use crate::paint::lit_among;
use crate::physics::{sum, summed, Params, Physics, Stats};
use crate::scene::{evenly_lit, geometry_fits, set_up, strided_occupancy};
use crate::sim::Sim;
use crate::spectrum::keeps_length;
use crate::stroke::filled;
use crate::terms::{reach, reach_is};
use crate::tiling::{choose_tile_edge, tile_budget, tile_starts, tiles_for_colour};
use rand::{Rng, SeedableRng};
use rand_pcg::Pcg64Mcg;
use vstd::prelude::*;

verus! {

/// The state of `Pcg64Mcg` as seeded from `seed`.
pub uninterp spec fn mcg_start(seed: u64) -> u128;

/// The number out of `0..edge` that `Pcg64Mcg` in `state` draws, and its state
/// from then on.
pub uninterp spec fn mcg_below(state: u128, edge: i32) -> (i32, u128);

/// The word that `Pcg64Mcg` in `state` draws, and its state from then on.
pub uninterp spec fn mcg_word(state: u128) -> (u32, u128);

/// Seeds `rand_pcg::Pcg64Mcg` with `seed_from_u64`, and reads its state out of
/// what `serde_json::to_string` writes of it. All that is claimed is that the
/// state depends on `seed` alone.
#[verifier::external_body]
fn seeded(seed: u64) -> (state: u128)
    ensures
        state == mcg_start(seed),
{
    let rng = Pcg64Mcg::seed_from_u64(seed);
    let text = serde_json::to_string(&rng).unwrap();
    text.trim_start_matches("{\"state\":").trim_end_matches('}').parse().unwrap()
}

/// Draws a number with `Rng::gen_range` out of `0..edge`, from `Pcg64Mcg` as
/// `new` makes it of `state`, and reads the state from then on out of what
/// `serde_json::to_string` writes. Claimed is that the number lies in the range,
/// and that it and the new state depend on `state` and `edge` alone.
#[verifier::external_body]
fn draw_below(state: u128, edge: i32) -> (r: (i32, u128))
    requires
        edge > 0,
    ensures
        r == mcg_below(state, edge),
        0 <= r.0 < edge,
{
    let mut rng = Pcg64Mcg::new(state);
    let drawn = rng.gen_range(0..edge);
    let text = serde_json::to_string(&rng).unwrap();
    (drawn, text.trim_start_matches("{\"state\":").trim_end_matches('}').parse().unwrap())
}

/// Draws a word with `Rng::gen`, from `Pcg64Mcg` as `new` makes it of `state`,
/// and reads the state from then on out of what `serde_json::to_string` writes.
/// All that is claimed is that the word and the new state depend on `state`
/// alone.
#[verifier::external_body]
fn draw_word(state: u128) -> (r: (u32, u128))
    ensures
        r == mcg_word(state),
{
    let mut rng = Pcg64Mcg::new(state);
    let drawn = rng.gen::<u32>();
    let text = serde_json::to_string(&rng).unwrap();
    (drawn, text.trim_start_matches("{\"state\":").trim_end_matches('}').parse().unwrap())
}

/// The size of the block of parameters that a launch is given.
pub const LAUNCH_BYTES: u64 = 48;

/// The size of the block of parameters that a picture is drawn with.
pub const RENDER_BYTES: u64 = 16;

/// The bytes of all buffers that a run keeps on the device: lit cells and a copy
/// to read back, closed cells, the fixed potential, the three parts of the steps,
/// two counters of the tiles and a copy of each, their energies and a copy, their
/// corners, and the parameters of a launch and of a picture.
pub open spec fn device_bytes(cells: int, noff: int, tiles: int) -> int {
    4 * cells * 2 + 4 * cells + 4 * cells + noff * 4 * 3 + 4 * tiles * 4 + 4 * tiles * 2 + tiles * 4 * 2 + LAUNCH_BYTES
        + RENDER_BYTES
}

/// A gas that is swept on a device, as far as the host keeps track of it.
#[derive(Debug)]
pub struct GpuSim<R> {
    pub params: Params<R>,
    /// The state of the generator that shifts the tiles and seeds the launches.
    pub state: u128,
    pub noff: u32,
    pub max_tiles: u32,
    pub tile_edge: u32,
    pub rc: u32,
    pub energy: R,
    pub accepted: u64,
    pub attempted: u64,
    pub iteration: u64,
    pub peak_bytes: u64,
    pub particles: usize,
}

/// What one launch works on: the corners of its tiles and its parameters.
#[derive(Debug)]
pub struct Launch<R> {
    pub tile_y: Vec<i32>,
    pub tile_x: Vec<i32>,
    pub h: u32,
    pub w: u32,
    pub l_edge: u32,
    pub rc: u32,
    pub hop: u32,
    pub ntiles: u32,
    pub noff: u32,
    pub moves: u32,
    pub periodic: u32,
    pub seed: u32,
    /// The charge of a particle, in single precision.
    pub q: R,
    /// The inverse of the thermal energy, in single precision.
    pub beta: R,
}

/// The layers that a device starts from.
#[derive(Debug)]
pub struct Upload<R> {
    pub occ: Vec<bool>,
    pub blocked: Vec<bool>,
    pub u_edge: Vec<R>,
}

/// What a run with a cutoff of `rc` cells and `noff` steps keeps on the device
/// fits the machine.
pub open spec fn device_fits<R>(params: Params<R>, rc: int, noff: int) -> bool {
    let edge = if rc + 1 > 16 { rc + 1 } else { 16 };
    &&& table_fits(rc)
    &&& rc < i32::MAX
    &&& noff <= u32::MAX
    &&& tile_budget(params.h as int, params.w as int, edge) <= u32::MAX
    &&& device_bytes(params.h * params.w, noff, tile_budget(params.h as int, params.w as int, edge)) <= u64::MAX
}

impl<R> GpuSim<R> {
    pub open spec fn wf(self) -> bool {
        &&& geometry_fits(self.params)
        &&& self.params.h * self.params.w <= usize::MAX
        &&& table_fits(self.rc as int)
        &&& self.rc < self.tile_edge <= i32::MAX
        &&& self.max_tiles == tile_budget(self.params.h as int, self.params.w as int, self.tile_edge as int)
    }

    /// The corners' rows of the tiles of a colour.
    pub open spec fn rows_of(self, colour: int, oy: int) -> Seq<int> {
        tile_starts(self.params.h as int, self.tile_edge as int, self.params.periodic, oy, colour % 2)
    }

    /// The corners' columns of the tiles of a colour.
    pub open spec fn columns_of(self, colour: int, ox: int) -> Seq<int> {
        tile_starts(self.params.w as int, self.tile_edge as int, self.params.periodic, ox, colour / 2)
    }

    /// The offset of the tiles in a sweep that starts in `state`, and the state
    /// from then on.
    pub open spec fn origin(self, state: u128) -> ((i32, i32), u128) {
        let y = mcg_below(state, self.tile_edge as i32);
        let x = mcg_below(y.1, self.tile_edge as i32);
        ((y.0, x.0), x.1)
    }

    /// How many tiles a colour has.
    pub open spec fn tiles_of(self, colour: int, at: (i32, i32)) -> nat {
        self.rows_of(colour, at.0 as int).len() * self.columns_of(colour, at.1 as int).len()
    }

    /// The state after the first `colours` launches of a sweep. A colour without
    /// tiles draws no seed.
    pub open spec fn state_after_launches(self, at: (i32, i32), state: u128, colours: nat) -> u128
        decreases colours,
    {
        if colours == 0 {
            state
        } else {
            let before = self.state_after_launches(at, state, (colours - 1) as nat);
            if self.tiles_of(colours - 1, at) == 0 {
                before
            } else {
                mcg_word(before).1
            }
        }
    }

    /// The state after `sweeps` sweeps.
    pub open spec fn state_after(self, sweeps: nat) -> u128
        decreases sweeps,
    {
        if sweeps == 0 {
            self.state
        } else {
            let (at, state) = self.origin(self.state_after((sweeps - 1) as nat));
            self.state_after_launches(at, state, 4)
        }
    }
}

/// `l` is the launch for a colour that has tiles, with the grid of tiles
/// shifted by `at`; `after` is `before` once its seed is drawn.
pub open spec fn launched<P: Physics>(
    p: P,
    before: GpuSim<P::Real>,
    after: GpuSim<P::Real>,
    colour: int,
    at: (i32, i32),
    temperature: P::Real,
    moves_per_tile: u32,
    l: Launch<P::Real>,
) -> bool {
    let ys = before.rows_of(colour, at.0 as int);
    let xs = before.columns_of(colour, at.1 as int);
    let (word, state) = mcg_word(before.state);
    &&& after == (GpuSim { state, ..before })
    &&& l.ntiles == before.tiles_of(colour, at) > 0
    &&& l.tile_y@.len() == l.ntiles
    &&& l.tile_x@.len() == l.ntiles
    &&& forall|k: int| 0 <= k < l.ntiles ==> #[trigger] l.tile_y@[k] == ys[k / xs.len() as int]
    &&& forall|k: int| 0 <= k < l.ntiles ==> #[trigger] l.tile_x@[k] == xs[k % xs.len() as int]
    &&& l.h == before.params.h
    &&& l.w == before.params.w
    &&& l.l_edge == before.tile_edge
    &&& l.rc == before.rc
    &&& l.hop == before.params.step_size
    &&& l.noff == before.noff
    &&& l.moves == moves_per_tile
    &&& l.periodic == (if before.params.periodic {
        1u32
    } else {
        0u32
    })
    &&& l.seed == (if word > 1 {
        word
    } else {
        1u32
    })
    &&& call_ensures(P::narrow, (&p, before.params.charge), l.q)
    &&& exists|beta: P::Real| #[trigger] coldness_is(p, temperature, beta) && call_ensures(P::narrow, (&p, beta), l.beta)
}

/// `sim` is the host's side of a run that starts from `occ` and `u_edge`.
pub open spec fn starts_from<P: Physics>(
    p: P,
    params: Params<P::Real>,
    occ: Seq<bool>,
    u_edge: Seq<P::Real>,
    sim: GpuSim<P::Real>,
) -> bool {
    exists|rc: usize, steps: Steps<P::Real>| #[trigger] starts_from_by(p, params, occ, u_edge, sim, rc, steps)
}

pub open spec fn starts_from_by<P: Physics>(
    p: P,
    params: Params<P::Real>,
    occ: Seq<bool>,
    u_edge: Seq<P::Real>,
    sim: GpuSim<P::Real>,
    rc: usize,
    steps: Steps<P::Real>,
) -> bool {
    let (h, w) = (params.h as int, params.w as int);
    &&& reach_is(p, params.cutoff, rc)
    &&& lists(p, params, rc as int, (side(rc as int) * side(rc as int)) as nat, steps)
    &&& device_fits(params, rc as int, steps.v.len() as int)
    &&& sim.params == params
    &&& sim.state == mcg_start(params.seed)
    &&& sim.noff == steps.v.len()
    &&& sim.rc == rc
    &&& sim.tile_edge == (if rc + 1 > 16 {
        rc + 1
    } else {
        16
    })
    &&& sim.max_tiles == tile_budget(h, w, sim.tile_edge as int)
    &&& energy_by_steps(p, occ, u_edge, steps, h, w, params.periodic, params.charge, sim.energy)
    &&& sim.accepted == 0
    &&& sim.attempted == 0
    &&& sim.iteration == 0
    &&& sim.peak_bytes == device_bytes(h * w, steps.v.len() as int, sim.max_tiles as int)
    &&& sim.particles == count_lit(occ)
}

/// A run is more than the machine has room for.
pub open spec fn has_no_room<P: Physics>(p: P, params: Params<P::Real>) -> bool {
    exists|rc: usize| #[trigger]
        reach_is(p, params.cutoff, rc) && (!table_fits(rc as int) || exists|steps: Steps<P::Real>| #[trigger]
            lists(p, params, rc as int, (side(rc as int) * side(rc as int)) as nat, steps) && !device_fits(
                params,
                rc as int,
                steps.v.len() as int,
            ))
}

fn device_room(h: usize, w: usize, rc: usize, noff: usize) -> (r: Option<(u32, u32, u64)>)
    requires
        table_fits(rc as int),
        h <= i32::MAX,
        w <= i32::MAX,
    ensures
        ({
            let edge = if rc + 1 > 16 { rc + 1 } else { 16 };
            let tiles = tile_budget(h as int, w as int, edge);
            let bytes = device_bytes(h * w, noff as int, tiles);
            match r {
                Some((e, t, b)) => {
                    &&& rc < i32::MAX
                    &&& noff <= u32::MAX
                    &&& e == edge
                    &&& t == tiles
                    &&& b == bytes
                },
                None => rc >= i32::MAX || noff > u32::MAX || tiles > u32::MAX || bytes > u64::MAX,
            }
        }),
{
    if rc >= i32::MAX as usize || noff as u64 > u32::MAX as u64 {
        return None;
    }
    let edge = choose_tile_edge(rc as u32);
    let pair: u128 = 2 * edge as u128;
    let ny: u128 = (h as u128 + pair - 1) / pair + 1;
    let nx: u128 = (w as u128 + pair - 1) / pair + 1;
    proof {
        assert(ny == (h + 2 * edge - 1) / (2 * edge as int) + 1);
        assert(nx == (w + 2 * edge - 1) / (2 * edge as int) + 1);
        assert(ny <= 0x4_0000_0000 && nx <= 0x4_0000_0000) by {
            vstd::arithmetic::div_mod::lemma_div_is_ordered_by_denominator(h + 2 * edge - 1, 1, 2 * edge as int);
            vstd::arithmetic::div_mod::lemma_div_is_ordered_by_denominator(w + 2 * edge - 1, 1, 2 * edge as int);
        }
        assert(ny * nx <= 0x4_0000_0000 * 0x4_0000_0000) by (nonlinear_arith)
            requires
                0 <= ny <= 0x4_0000_0000,
                0 <= nx <= 0x4_0000_0000,
        ;
        assert(h * w <= i32::MAX * i32::MAX) by (nonlinear_arith)
            requires
                0 <= h <= i32::MAX,
                0 <= w <= i32::MAX,
        ;
        assert(ny * nx == tile_budget(h as int, w as int, edge as int));
    }
    let tiles: u128 = ny * nx;
    if tiles > u32::MAX as u128 {
        return None;
    }
    let cells: u128 = h as u128 * w as u128;
    let bytes: u128 = 4 * cells * 2 + 4 * cells + 4 * cells + noff as u128 * 4 * 3 + 4 * tiles * 4 + 4 * tiles * 2 + tiles * 4 * 2
        + LAUNCH_BYTES as u128 + RENDER_BYTES as u128;
    if bytes > u64::MAX as u128 {
        return None;
    }
    Some((edge, tiles as u32, bytes as u64))
}

impl<R: Copy> GpuSim<R> {
    /// The host's side of a run from given layers, and the layers for the device
    /// to start from. `None` if the run is more than the machine has room for.
    pub fn from_state<P: Physics<Real = R>>(p: &P, params: Params<R>, occ: Vec<bool>, blocked: Vec<bool>, u_edge: Vec<R>) -> (r: Option<
        (Self, Upload<R>),
    >)
        requires
            geometry_fits(params),
            occ@.len() == params.h * params.w,
            blocked@.len() == params.h * params.w,
            u_edge@.len() == params.h * params.w,
        ensures
            r matches Some((sim, up)) ==> {
                &&& sim.wf()
                &&& starts_from(*p, params, occ@, u_edge@, sim)
                &&& up == (Upload { occ, blocked, u_edge })
            },
            r is None ==> has_no_room(*p, params),
    {
        let cells = occ.len();
        let rc = reach(p, params.cutoff);
        assert(reach_is(*p, params.cutoff, rc));
        if !has_table(rc) {
            return None;
        }
        let off = offset_table(p, &params, rc);
        assert(lists(*p, params, rc as int, (side(rc as int) * side(rc as int)) as nat, off@));
        let (tile_edge, max_tiles, peak_bytes) = match device_room(params.h, params.w, rc, off.v.len()) {
            Some(room) => room,
            None => {
                return None;
            },
        };
        let energy = total_energy_from_offsets(p, &occ, &u_edge, &off, params.h, params.w, params.periodic, params.charge);
        let sim = GpuSim {
            params,
            state: seeded(params.seed),
            noff: off.v.len() as u32,
            max_tiles,
            tile_edge,
            rc: rc as u32,
            energy,
            accepted: 0,
            attempted: 0,
            iteration: 0,
            peak_bytes,
            particles: lit_among(&occ),
        };
        assert(starts_from_by(*p, params, occ@, u_edge@, sim, rc, off@));
        Some((sim, Upload { occ, blocked, u_edge }))
    }

    /// A run on a blank canvas, its particles spread evenly.
    pub fn new_blank<P: Physics<Real = R>>(p: &P, params: Params<R>, n_particles: usize) -> (r: Option<(Self, Upload<R>)>)
        requires
            geometry_fits(params),
            params.h * params.w <= usize::MAX,
        ensures
            r matches Some((sim, up)) ==> {
                let total = params.h * params.w;
                let take = if n_particles < total { n_particles as int } else { total };
                &&& sim.wf()
                &&& starts_from(*p, params, up.occ@, up.u_edge@, sim)
                &&& up.occ@.len() == total
                &&& evenly_lit(up.occ@, take)
                &&& sim.particles == take
                &&& up.blocked@ == Seq::new(total as nat, |c: int| false)
                &&& up.u_edge@.len() == total
                &&& forall|c: int| 0 <= c < total ==> call_ensures(P::zero, (p,), #[trigger] up.u_edge@[c])
            },
            r is None ==> has_no_room(*p, params),
    {
        let total = params.h * params.w;
        let take = if n_particles < total { n_particles } else { total };
        let occ = strided_occupancy(total, take);
        let zero = p.zero();
        GpuSim::from_state(p, params, occ, filled(false, total), filled(zero, total))
    }

    /// A run over lines that cover the cells by `cov`. Its layers are those of a
    /// gas set up on the host, the fixed potential in single precision.
    pub fn new<P: Physics<Real = R>>(
        p: &P,
        params: Params<R>,
        cov: Vec<R>,
        occ0: Vec<bool>,
        line_density: R,
        line_blocks: bool,
    ) -> (r: Option<(Self, Upload<R>)>)
        requires
            keeps_length(*p),
            geometry_fits(params),
            cov@.len() == params.h * params.w,
            occ0@.len() == params.h * params.w,
        ensures
            r matches Some((sim, up)) ==> {
                &&& sim.wf()
                &&& starts_from(*p, params, up.occ@, up.u_edge@, sim)
                &&& exists|host: Sim<R>| #[trigger]
                    set_up(*p, params, cov@, occ0@, line_density, line_blocks, host) && host.wf() && up.occ@ == host.occ@ && up.blocked@
                        == host.blocked@ && up.u_edge@.len() == host.u_edge@.len() && (forall|c: int|
                        0 <= c < up.u_edge@.len() ==> call_ensures(P::narrow, (p, host.u_edge@[c]), #[trigger] up.u_edge@[c]))
            },
            r is None ==> has_no_room(*p, params) || exists|rc: usize| #[trigger]
                reach_is(*p, params.cutoff, rc) && !field_fits(
                    params.h as int,
                    params.w as int,
                    rc as int,
                    params.periodic,
                ),
    {
        let host = match Sim::new(p, params, cov, occ0, line_density, line_blocks) {
            Some(host) => host,
            None => {
                return None;
            },
        };
        let ghost whole = host;
        let mut u_edge: Vec<R> = Vec::with_capacity(host.u_edge.len());
        let mut i: usize = 0;
        while i < host.u_edge.len()
            invariant
                i <= host.u_edge@.len(),
                u_edge@.len() == i,
                forall|c: int| 0 <= c < i ==> call_ensures(P::narrow, (p, host.u_edge@[c]), #[trigger] u_edge@[c]),
            decreases host.u_edge@.len() - i,
        {
            u_edge.push(p.narrow(host.u_edge[i]));
            i = i + 1;
        }
        let r = GpuSim::from_state(p, params, host.occ, host.blocked, u_edge);
        assert(set_up(*p, params, cov@, occ0@, line_density, line_blocks, whole));
        r
    }

    /// Opens a sweep: draws by how many cells its grid of tiles is shifted.
    pub fn begin_sweep(&mut self) -> (r: (i32, i32))
        requires
            old(self).wf(),
        ensures
            final(self).wf(),
            (r, final(self).state) == old(self).origin(old(self).state),
            *final(self) == (GpuSim { state: final(self).state, ..*old(self) }),
            0 <= r.0 < old(self).tile_edge,
            0 <= r.1 < old(self).tile_edge,
    {
        let (oy, mid) = draw_below(self.state, self.tile_edge as i32);
        let (ox, state) = draw_below(mid, self.tile_edge as i32);
        self.state = state;
        (oy, ox)
    }

    /// The launch for one colour of a sweep, nothing if the colour has no
    /// tiles. The seed of the launch is drawn, and never zero.
    pub fn launch<P: Physics<Real = R>>(
        &mut self,
        p: &P,
        colour: u32,
        oy: i32,
        ox: i32,
        temperature: R,
        moves_per_tile: u32,
    ) -> (r: Option<Launch<R>>)
        requires
            old(self).wf(),
            colour < 4,
            0 <= oy < old(self).tile_edge,
            0 <= ox < old(self).tile_edge,
        ensures
            final(self).wf(),
            match r {
                None => old(self).tiles_of(colour as int, (oy, ox)) == 0 && *final(self) == *old(self),
                Some(l) => launched(*p, *old(self), *final(self), colour as int, (oy, ox), temperature, moves_per_tile, l),
            },
    {
        proof {
            crate::tiling::law_all_tiles_have_room(
                self.params.h as int,
                self.params.w as int,
                self.tile_edge as int,
                self.params.periodic,
                colour as int,
                oy as int,
                ox as int,
            );
        }
        let (tile_y, tile_x) = tiles_for_colour(
            self.params.h,
            self.params.w,
            self.params.periodic,
            self.tile_edge,
            self.max_tiles,
            colour,
            oy,
            ox,
        );
        if tile_y.len() == 0 {
            return None;
        }
        let (drawn, state) = draw_word(self.state);
        self.state = state;
        let seed: u32 = if drawn > 1 { drawn } else { 1 };
        let ntiles = tile_y.len() as u32;
        let q = p.narrow(self.params.charge);
        let cold = coldness(p, temperature);
        let beta = p.narrow(cold);
        assert(coldness_is(*p, temperature, cold));
        Some(
            Launch {
                tile_y,
                tile_x,
                h: self.params.h as u32,
                w: self.params.w as u32,
                l_edge: self.tile_edge,
                rc: self.rc,
                hop: self.params.step_size as u32,
                ntiles,
                noff: self.noff,
                moves: moves_per_tile,
                periodic: if self.params.periodic { 1 } else { 0 },
                seed,
                q,
                beta,
            },
        )
    }
}

/// Two runs from the same parameters draw alike, sweep after sweep, whatever
/// their layers are and whatever the device makes of them.
pub proof fn law_device_runs_can_be_repeated<P: Physics>(
    p: P,
    params: Params<P::Real>,
    occ1: Seq<bool>,
    u_edge1: Seq<P::Real>,
    first: GpuSim<P::Real>,
    occ2: Seq<bool>,
    u_edge2: Seq<P::Real>,
    second: GpuSim<P::Real>,
    sweeps: nat,
)
    requires
        starts_from(p, params, occ1, u_edge1, first),
        starts_from(p, params, occ2, u_edge2, second),
        first.tile_edge == second.tile_edge,
    ensures
        first.state_after(sweeps) == second.state_after(sweeps),
        first.origin(first.state_after(sweeps)) == second.origin(second.state_after(sweeps)),
    decreases sweeps,
{
    if sweeps > 0 {
        law_device_runs_can_be_repeated(p, params, occ1, u_edge1, first, occ2, u_edge2, second, (sweeps - 1) as nat);
        let (at, state) = first.origin(first.state_after((sweeps - 1) as nat));
        lemma_launches_alike(first, second, at, state, 4);
    }
}

proof fn lemma_launches_alike<R>(first: GpuSim<R>, second: GpuSim<R>, at: (i32, i32), state: u128, colours: nat)
    requires
        first.params == second.params,
        first.tile_edge == second.tile_edge,
    ensures
        first.state_after_launches(at, state, colours) == second.state_after_launches(at, state, colours),
    decreases colours,
{
    if colours > 0 {
        lemma_launches_alike(first, second, at, state, (colours - 1) as nat);
    }
}

/// The sum of `counts`.
pub open spec fn count_sum(counts: Seq<u32>) -> int
    decreases counts.len(),
{
    if counts.len() == 0 {
        0
    } else {
        count_sum(counts.drop_last()) + counts.last()
    }
}

proof fn lemma_count_sum(counts: Seq<u32>)
    ensures
        0 <= count_sum(counts) <= counts.len() * u32::MAX,
    decreases counts.len(),
{
    if counts.len() > 0 {
        lemma_count_sum(counts.drop_last());
    }
}

fn add_up(counts: &Vec<u32>) -> (r: u64)
    requires
        counts@.len() <= u32::MAX,
    ensures
        r == count_sum(counts@),
{
    let mut r: u64 = 0;
    let mut i: usize = 0;
    assert(counts@.take(0) =~= Seq::empty());
    while i < counts.len()
        invariant
            i <= counts@.len() <= u32::MAX,
            r == count_sum(counts@.take(i as int)),
        decreases counts@.len() - i,
    {
        proof {
            assert(counts@.take(i + 1).drop_last() =~= counts@.take(i as int));
            lemma_count_sum(counts@.take(i as int));
            assert(i * 0xffff_ffff <= 0xffff_ffff * 0xffff_ffff) by (nonlinear_arith)
                requires
                    0 <= i <= 0xffff_ffff,
            ;
        }
        r = r + counts[i] as u64;
        i = i + 1;
    }
    assert(counts@.take(i as int) =~= counts@);
    r
}

/// A sweep under way: by how many cells its grid of tiles is shifted, the
/// colour whose turn is next, and how many moves were attempted so far.
#[derive(Debug, Clone, Copy, PartialEq, Eq, Structural)]
pub struct Sweep {
    pub oy: i32,
    pub ox: i32,
    pub next: u32,
    pub attempts: u64,
}

impl Sweep {
    pub open spec fn at(self) -> (i32, i32) {
        (self.oy, self.ox)
    }

    /// The sweep is one of `sim`.
    pub open spec fn wf<R>(self, sim: GpuSim<R>) -> bool {
        &&& 0 <= self.oy < sim.tile_edge
        &&& 0 <= self.ox < sim.tile_edge
        &&& self.next <= 4
    }
}

impl<R> GpuSim<R> {
    /// The colours from `lo` up to `hi` have no tiles.
    pub open spec fn no_tiles(self, at: (i32, i32), lo: int, hi: int) -> bool {
        forall|colour: int| lo <= colour < hi ==> #[trigger] self.tiles_of(colour, at) == 0
    }
}

/// `sweep` is one that `before` opens, which `after` is from then on.
pub open spec fn sweep_opens<R>(before: GpuSim<R>, after: GpuSim<R>, sweep: Sweep) -> bool {
    &&& (sweep.at(), after.state) == before.origin(before.state)
    &&& after == (GpuSim { state: after.state, ..before })
    &&& sweep.next == 0
    &&& sweep.attempts == 0
}

/// `r` is the launch for the next colour of `sweep` that has tiles, nothing once there
/// is none; `after` and `left` are the run and the sweep from then on.
pub open spec fn goes_on<P: Physics>(
    p: P,
    before: GpuSim<P::Real>,
    sweep: Sweep,
    temperature: P::Real,
    moves_per_tile: u32,
    after: GpuSim<P::Real>,
    left: Sweep,
    r: Option<Launch<P::Real>>,
) -> bool {
    &&& left == (Sweep { next: left.next, ..sweep })
    &&& sweep.next <= left.next
    &&& match r {
        None => {
            &&& after == before
            &&& left.next == 4
            &&& before.no_tiles(sweep.at(), sweep.next as int, 4)
        },
        Some(l) => {
            &&& sweep.next < left.next
            &&& before.no_tiles(sweep.at(), sweep.next as int, left.next - 1)
            &&& launched(p, before, after, left.next - 1, sweep.at(), temperature, moves_per_tile, l)
        },
    }
}

/// `after` is `before` with the counters of one launch taken in.
pub open spec fn taken_in<P: Physics>(
    p: P,
    before: GpuSim<P::Real>,
    after: GpuSim<P::Real>,
    acc: Seq<u32>,
    att: Seq<u32>,
    de: Seq<P::Real>,
) -> bool {
    &&& after == (GpuSim { accepted: after.accepted, attempted: after.attempted, energy: after.energy, ..before })
    &&& after.accepted == before.accepted + count_sum(acc)
    &&& after.attempted == before.attempted + count_sum(att)
    &&& exists|sum: P::Real| #[trigger] call_ensures(P::plus, (&p, before.energy, sum), after.energy) && summed(p, de, sum)
}

/// `after` is `before` with its energy worked out afresh from layers read back, and
/// its particles counted.
pub open spec fn weighed_afresh<P: Physics>(
    p: P,
    before: GpuSim<P::Real>,
    occ: Seq<bool>,
    u_edge: Seq<P::Real>,
    after: GpuSim<P::Real>,
) -> bool {
    let (params, rc) = (before.params, before.rc as int);
    &&& after == (GpuSim { energy: after.energy, particles: count_lit(occ) as usize, ..before })
    &&& exists|steps: Steps<P::Real>| #[trigger]
        lists(p, params, rc, (side(rc) * side(rc)) as nat, steps) && energy_by_steps(
            p,
            occ,
            u_edge,
            steps,
            params.h as int,
            params.w as int,
            params.periodic,
            params.charge,
            after.energy,
        )
}

impl<R: Copy> GpuSim<R> {
    /// Takes in the counters that a launch gives back, a number of accepted and
    /// attempted moves and an energy for each tile. Returns how many moves were
    /// attempted.
    pub fn take_in<P: Physics<Real = R>>(&mut self, p: &P, acc: &Vec<u32>, att: &Vec<u32>, de: &Vec<R>) -> (r: u64)
        requires
            acc@.len() <= u32::MAX,
            att@.len() <= u32::MAX,
            old(self).accepted + count_sum(acc@) <= u64::MAX,
            old(self).attempted + count_sum(att@) <= u64::MAX,
        ensures
            taken_in(*p, *old(self), *final(self), acc@, att@, de@),
            old(self).wf() ==> final(self).wf(),
            r == count_sum(att@),
    {
        let accepted = add_up(acc);
        let attempted = add_up(att);
        let energy = sum(p, de);
        self.accepted = self.accepted + accepted;
        self.attempted = self.attempted + attempted;
        self.energy = p.plus(self.energy, energy);
        attempted
    }

    /// Opens a sweep that goes over the four colours in turn.
    pub fn open_sweep(&mut self) -> (sweep: Sweep)
        requires
            old(self).wf(),
        ensures
            final(self).wf(),
            sweep.wf(*final(self)),
            sweep_opens(*old(self), *final(self), sweep),
    {
        let (oy, ox) = self.begin_sweep();
        Sweep { oy, ox, next: 0, attempts: 0 }
    }

    /// The launch for the next colour of a sweep that has tiles, nothing once
    /// there is none.
    pub fn next_launch<P: Physics<Real = R>>(
        &mut self,
        p: &P,
        sweep: &mut Sweep,
        temperature: R,
        moves_per_tile: u32,
    ) -> (r: Option<Launch<R>>)
        requires
            old(self).wf(),
            old(sweep).wf(*old(self)),
        ensures
            final(self).wf(),
            final(sweep).wf(*final(self)),
            goes_on(*p, *old(self), *old(sweep), temperature, moves_per_tile, *final(self), *final(sweep), r),
            forall|start: u128|
                old(self).state == #[trigger] old(self).state_after_launches(old(sweep).at(), start, old(sweep).next as nat)
                    ==> final(self).state == old(self).state_after_launches(old(sweep).at(), start, final(sweep).next as nat),
    {
        let ghost at = sweep.at();
        while sweep.next < 4
            invariant
                *self == *old(self),
                self.wf(),
                sweep.wf(*self),
                at == old(sweep).at(),
                *sweep == (Sweep { next: sweep.next, ..*old(sweep) }),
                old(sweep).next <= sweep.next,
                self.no_tiles(at, old(sweep).next as int, sweep.next as int),
                forall|start: u128|
                    self.state == #[trigger] self.state_after_launches(at, start, old(sweep).next as nat) ==> self.state
                        == self.state_after_launches(at, start, sweep.next as nat),
            decreases 4 - sweep.next,
        {
            let colour = sweep.next;
            let made = self.launch(p, colour, sweep.oy, sweep.ox, temperature, moves_per_tile);
            sweep.next = colour + 1;
            if made.is_some() {
                return made;
            }
        }
        None
    }

    /// Takes in the counters that a launch of a sweep gives back, unless the
    /// machine cannot count so far. Returns whether it can.
    pub fn take_in_counters<P: Physics<Real = R>>(
        &mut self,
        p: &P,
        sweep: &mut Sweep,
        acc: &Vec<u32>,
        att: &Vec<u32>,
        de: &Vec<R>,
    ) -> (ok: bool)
        requires
            acc@.len() <= u32::MAX,
            att@.len() <= u32::MAX,
        ensures
            ok == {
                &&& old(self).accepted + count_sum(acc@) <= u64::MAX
                &&& old(self).attempted + count_sum(att@) <= u64::MAX
                &&& old(sweep).attempts + count_sum(att@) <= u64::MAX
            },
            if ok {
                &&& taken_in(*p, *old(self), *final(self), acc@, att@, de@)
                &&& *final(sweep) == (Sweep { attempts: (old(sweep).attempts + count_sum(att@)) as u64, ..*old(sweep) })
            } else {
                *final(self) == *old(self) && *final(sweep) == *old(sweep)
            },
            old(self).wf() ==> final(self).wf(),
            old(sweep).wf(*old(self)) ==> final(sweep).wf(*final(self)),
    {
        let accepted = add_up(acc);
        let attempted = add_up(att);
        if self.accepted.checked_add(accepted).is_none() || self.attempted.checked_add(attempted).is_none() || sweep.attempts.checked_add(
            attempted,
        ).is_none() {
            return false;
        }
        let more = self.take_in(p, acc, att, de);
        sweep.attempts = sweep.attempts + more;
        true
    }

    /// Closes a sweep.
    pub fn end_sweep(&mut self)
        requires
            old(self).iteration < u64::MAX,
        ensures
            *final(self) == (GpuSim { iteration: (old(self).iteration + 1) as u64, ..*old(self) }),
            old(self).wf() ==> final(self).wf(),
    {
        self.iteration = self.iteration + 1;
    }

    /// Whether another sweep is due once `done` moves were attempted: there is
    /// always one, and more until `target_attempts` is reached.
    pub fn sweep_is_due(done: u64, target_attempts: u64) -> (r: bool)
        ensures
            r == (done < target_attempts || done == 0),
    {
        let target: u64 = if target_attempts > 1 { target_attempts } else { 1 };
        done < target
    }

    /// Works the energy out afresh from layers read back, and counts particles.
    pub fn recompute_energy<P: Physics<Real = R>>(&mut self, p: &P, occ: &Vec<bool>, u_edge: &Vec<R>) -> (e: R)
        requires
            old(self).wf(),
            occ@.len() == old(self).params.h * old(self).params.w,
            u_edge@.len() == old(self).params.h * old(self).params.w,
        ensures
            final(self).wf(),
            weighed_afresh(*p, *old(self), occ@, u_edge@, *final(self)),
            e == final(self).energy,
    {
        let cells = occ.len();
        let off = offset_table(p, &self.params, self.rc as usize);
        let e = total_energy_from_offsets(
            p,
            occ,
            u_edge,
            &off,
            self.params.h,
            self.params.w,
            self.params.periodic,
            self.params.charge,
        );
        let ghost before = *self;
        self.energy = e;
        self.particles = lit_among(occ);
        proof {
            let (params, rc) = (before.params, before.rc as int);
            assert(lists(*p, params, rc, (side(rc) * side(rc)) as nat, off@));
            assert(energy_by_steps(
                *p,
                occ@,
                u_edge@,
                off@,
                params.h as int,
                params.w as int,
                params.periodic,
                params.charge,
                self.energy,
            ));
            assert(*self == (GpuSim { energy: self.energy, particles: count_lit(occ@) as usize, ..before }));
        }
        e
    }

    pub fn peak_gpu_bytes(&self) -> (r: u64)
        ensures
            r == self.peak_bytes,
    {
        self.peak_bytes
    }

    pub fn tile_edge(&self) -> (r: u32)
        ensures
            r == self.tile_edge,
    {
        self.tile_edge
    }

    pub fn energy(&self) -> (r: R)
        ensures
            r == self.energy,
    {
        self.energy
    }

    /// The counters of the run. Every attempted move counts as a proposal.
    pub fn stats(&self) -> (s: Stats<R>)
        ensures
            s == (Stats {
                iteration: self.iteration,
                proposed: self.attempted,
                accepted: self.accepted,
                dead_proposals: 0,
                fail_streak: 0,
                batch: self.tile_edge as usize,
                particles: self.particles,
                energy: self.energy,
                temperature: self.params.temperature,
            }),
    {
        Stats {
            iteration: self.iteration,
            proposed: self.attempted,
            accepted: self.accepted,
            dead_proposals: 0,
            fail_streak: 0,
            batch: self.tile_edge as usize,
            particles: self.particles,
            energy: self.energy,
            temperature: self.params.temperature,
        }
    }

    pub fn set_temperature(&mut self, t: R)
        ensures
            *final(self) == (GpuSim { params: Params { temperature: t, ..old(self).params }, ..*old(self) }),
            old(self).wf() ==> final(self).wf(),
    {
        self.params.temperature = t;
    }

    pub fn params(&self) -> (r: &Params<R>)
        ensures
            *r == self.params,
    {
        &self.params
    }
}

} // verus!

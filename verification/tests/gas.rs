use coulomb::convolve::{convolve, convolve_full, has_full, pow2_from};
use coulomb::formulas::{casting, cover, downhill, lucky, move_energy, potential, radial_alpha_at, total};
use coulomb::gpu::GpuSim;
use coulomb::json::{load_entries, load_params};
use coulomb::kernel::{build_kernel, coupling_kernel};
use coulomb::offsets::{build_offset_table, total_energy_from_offsets};
use coulomb::physics::{sum, Brush, Params, Physics, Stats};
use coulomb::scenario::{
    compare, fifty, one_us, run_chain, run_scenario, sixtyfour, twelve_us, two_i32, Mismatch, RunResult, Scenario, Stage,
    StageResult,
};
use coulomb::scene::has_geometry;
use coulomb::session::{apply_param, apply_params, list_params, read_param, ParamValue, SimHandle};
use coulomb::sim::{Sim, STROKE_UNDO_CAP};
use coulomb::spectrum::convolve_torus;
use coulomb::stroke::{stroke_extent, stroke_patch, stroke_samples, TooLarge};
use coulomb::terms::{beyond, clamp_unit, cosine_fall, decay, over_distance, reach, snap, solid, unit_sign};
use rand::rngs::mock::StepRng;
use rand::{Rng, SeedableRng};
use rand_pcg::Pcg64Mcg;
use rustfft::num_complex::Complex;
use rustfft::FftPlanner;
use std::cell::RefCell;
use std::f64::consts::PI;

const KB_EV: f64 = 8.617_333_262e-5;

/// The gas in double precision.
struct Double {
    planner: RefCell<FftPlanner<f64>>,
}

impl Double {
    fn new() -> Self {
        Double { planner: RefCell::new(FftPlanner::new()) }
    }
}

impl Physics for Double {
    type Real = f64;
    type Wave = Complex<f64>;

    fn zero(&self) -> f64 {
        0.0
    }

    fn half(&self) -> f64 {
        0.5
    }

    fn one(&self) -> f64 {
        1.0
    }

    fn plus(&self, a: f64, b: f64) -> f64 {
        a + b
    }

    fn minus(&self, a: f64, b: f64) -> f64 {
        a - b
    }

    fn times(&self, a: f64, b: f64) -> f64 {
        a * b
    }

    fn quotient(&self, a: f64, b: f64) -> f64 {
        a / b
    }

    fn size(&self, v: f64) -> f64 {
        v.abs()
    }

    fn tiny(&self) -> f64 {
        1e-30
    }

    fn noise(&self) -> f64 {
        1e-9
    }

    fn pi(&self) -> f64 {
        PI
    }

    fn cosine(&self, v: f64) -> f64 {
        v.cos()
    }

    fn ratio(&self, a: u64, b: u64) -> f64 {
        a as f64 / b as f64
    }

    fn count(&self, n: u64) -> f64 {
        n as f64
    }

    fn share(&self, total: f64, n: usize) -> f64 {
        total / n as f64
    }

    fn narrow(&self, v: f64) -> f64 {
        v as f32 as f64
    }

    fn exceeds(&self, a: f64, b: f64) -> bool {
        a > b
    }

    fn at_most(&self, a: f64, b: f64) -> bool {
        a <= b
    }

    fn vanishes(&self, v: f64) -> bool {
        v == 0.0
    }

    fn lesser(&self, a: f64, b: f64) -> f64 {
        a.min(b)
    }

    fn greater(&self, a: f64, b: f64) -> f64 {
        a.max(b)
    }

    fn lowest(&self) -> f64 {
        f64::NEG_INFINITY
    }

    fn highest(&self) -> f64 {
        f64::INFINITY
    }

    fn floor(&self, v: f64) -> i64 {
        v.floor() as i64
    }

    fn ceil(&self, v: f64) -> i64 {
        v.ceil() as i64
    }

    fn root(&self, r2: i64) -> f64 {
        (r2 as f64).sqrt()
    }

    fn distance(&self, y: i64, x: i64, at: [f64; 2]) -> f64 {
        (y as f64 - at[0]).hypot(x as f64 - at[1])
    }

    fn boltzmann_constant(&self) -> f64 {
        KB_EV
    }

    fn least_temperature(&self) -> f64 {
        1e-9
    }

    fn exponential(&self, v: f64) -> f64 {
        v.exp()
    }

    fn uniform(&self, word: u64) -> f64 {
        StepRng::new(word, 0).gen::<f64>()
    }

    fn spacing(&self) -> f64 {
        0.5
    }

    fn way(&self, a: [f64; 2], b: [f64; 2]) -> f64 {
        (b[0] - a[0]).hypot(b[1] - a[1])
    }

    fn speck(&self) -> f64 {
        1e-9
    }

    fn lift(&self, v: f64) -> Complex<f64> {
        Complex::new(v, 0.0)
    }

    fn transform(&self, line: Vec<Complex<f64>>, inverse: bool) -> Vec<Complex<f64>> {
        let mut line = line;
        let mut planner = self.planner.borrow_mut();
        let fft = if inverse { planner.plan_fft_inverse(line.len()) } else { planner.plan_fft_forward(line.len()) };
        fft.process(&mut line);
        line
    }

    fn product(&self, a: Complex<f64>, b: Complex<f64>) -> Complex<f64> {
        a * b
    }

    fn settle(&self, v: Complex<f64>, n: usize) -> f64 {
        v.re / n as f64
    }
}

fn defaults() -> Params<f64> {
    Params {
        h: 128,
        w: 128,
        seed: 0,
        strength: 1.0,
        screening: 0.0,
        cutoff: 12.0,
        periodic: false,
        charge: 1.0,
        attract_depth: 0.0,
        attract_range: 1.5,
        temperature: 5_000.0,
        batch: 64,
        batch_min: 1,
        batch_decrement: 1,
        fail_limit: 12,
        step_size: 2,
    }
}

fn plain_brush() -> Brush<f64> {
    Brush {
        sign: 1.0,
        magnitude: 4.0,
        density: 1.0,
        thickness: 10.0,
        flow: 1.0,
        hardness: 0.5,
        penetrability: 1.0,
        coupling: 12.0,
    }
}

fn small_params() -> Params<f64> {
    Params {
        h: 32,
        w: 32,
        seed: 1,
        strength: 1.0,
        screening: 0.0,
        cutoff: 6.0,
        periodic: false,
        charge: 1.0,
        attract_depth: 0.0,
        attract_range: 1.5,
        temperature: 50_000.0,
        batch: 1,
        batch_min: 1,
        batch_decrement: 1,
        fail_limit: 12,
        step_size: 2,
    }
}

fn blank(p: &Double, params: Params<f64>, n: usize) -> Sim<f64> {
    Sim::new_blank(p, params, n).unwrap()
}

fn make_handle(p: &Double, h: usize, w: usize, n: usize) -> SimHandle<f64> {
    SimHandle::new(p, blank(p, Params { h, w, seed: 42, ..defaults() }, n))
}

fn lit(occ: &[bool]) -> usize {
    occ.iter().filter(|&&b| b).count()
}

fn close_to(a: f64, b: f64, max_relative: f64) -> bool {
    a == b || (a - b).abs() <= max_relative * a.abs().max(b.abs())
}

fn all_close(a: &[f64], b: &[f64], tol: f64) -> bool {
    a.len() == b.len() && a.iter().zip(b).all(|(x, y)| (x - y).abs() < tol)
}

fn cells_of(at: &[(usize, usize)], h: usize, w: usize) -> Vec<bool> {
    let mut occ = vec![false; h * w];
    for &(y, x) in at {
        occ[y * w + x] = true;
    }
    occ
}

// The gas as a whole.

#[test]
fn conserves_particles() {
    let p = Double::new();
    let mut sim = blank(&p, small_params(), 80);
    let n0 = lit(sim.occupancy());
    sim.step_many(&p, 2000);
    let n1 = lit(sim.occupancy());
    assert_eq!(n0, n1);
    assert_eq!(n0, 80);
    assert_eq!(sim.stats().particles, 80);
}

#[test]
fn energy_delta_tracks_total_recompute() {
    let p = Double::new();
    let mut sim = blank(&p, small_params(), 60);
    sim.step_many(&p, 500);
    let running = sim.stats().energy;
    let recomputed = sim.total_energy(&p);
    assert!(close_to(running, recomputed, 0.005));
    assert!(sim.stats().accepted > 0);
}

#[test]
fn u_edge_from_line_reproduces_direct_potential() {
    let p = Double::new();
    let mut params = small_params();
    params.h = 16;
    params.w = 16;
    params.cutoff = 8.0;
    let (rc, kedge) = build_kernel(&p, &params, false).unwrap();
    let mut cov = vec![0.0f64; params.h * params.w];
    cov[3 * params.w + 4] = 1.0;
    cov[9 * params.w + 11] = 1.0;
    let u = convolve(&p, &cov, params.h, params.w, &kedge, rc, false);
    let (py, px) = (6i32, 7i32);
    let mut direct = 0.0;
    for (cy, cx) in [(3i32, 4i32), (9, 11)] {
        let r2 = (py - cy).pow(2) + (px - cx).pow(2);
        direct += potential(&p, r2 as i64, &params, false);
    }
    assert!(close_to(u[py as usize * params.w + px as usize], direct, 1e-8));
    assert!(close_to(direct, 1.0 / 18f64.sqrt() + 1.0 / 25f64.sqrt(), 1e-12));
}

#[test]
fn undo_stroke_restores_field() {
    let p = Double::new();
    let mut params = small_params();
    params.h = 24;
    params.w = 24;
    params.cutoff = 4.0;
    let mut sim = blank(&p, params, 20);
    let u_before: Vec<f64> = sim.u_edge().to_vec();
    let e_before = sim.total_energy(&p);
    let br = Brush { thickness: 3.0, coupling: 4.0, ..plain_brush() };
    let _ = sim.paint_stroke(&p, &vec![[10.0, 8.0], [12.0, 14.0]], &br, true).unwrap();
    assert!(sim.strokes.len() == 1);
    assert!(!all_close(&u_before, sim.u_edge(), 1e-3));
    sim.undo_stroke(&p);
    let u_after: Vec<f64> = sim.u_edge().to_vec();
    for i in 0..u_before.len() {
        assert!((u_before[i] - u_after[i]).abs() < 1e-9, "u_edge mismatch at {}", i);
    }
    assert!(close_to(sim.total_energy(&p), e_before, 1e-9));
}

// Sessions.

#[test]
fn create_and_destroy_roundtrip() {
    let p = Double::new();
    let handle = make_handle(&p, 64, 64, 100);
    assert_eq!(handle.sim.stats().particles, 100);
    assert!(!handle.paused);
    drop(handle);
}

#[test]
fn tick_advances_iteration() {
    let p = Double::new();
    let mut handle = make_handle(&p, 32, 32, 30);
    let before = handle.sim.stats().iteration;
    handle.sim.step_many(&p, 5);
    let after = handle.sim.stats().iteration;
    assert_eq!(after - before, 5);
}

#[test]
fn stats_shape_matches_kotlin_expectation() {
    let p = Double::new();
    let handle = make_handle(&p, 16, 16, 20);
    let s = handle.sim.stats();
    assert!(s.iteration == 0);
    assert!(s.particles > 0);
    assert!(s.temperature.is_finite());
    assert_eq!(handle.live_stats(&p).len(), 9);
}

#[test]
fn set_temperature_via_apply_param() {
    let p = Double::new();
    let mut handle = make_handle(&p, 16, 16, 10);
    apply_param(&mut handle.sim, &"temperature".to_string(), 1234.5);
    let t = handle.sim.params().temperature;
    assert!((t - 1234.5).abs() < 1e-9);
}

fn value_of(v: &ParamValue<f64>) -> serde_json::Value {
    match v {
        ParamValue::Count(n) => serde_json::Value::from(*n),
        ParamValue::Seed(n) => serde_json::Value::from(*n),
        ParamValue::Step(n) => serde_json::Value::from(*n),
        ParamValue::Flag(b) => serde_json::Value::from(*b),
        ParamValue::Number(x) => serde_json::Value::from(*x),
    }
}

#[test]
fn params_json_roundtrip_covers_defaults() {
    let params = defaults();
    let mut map = serde_json::Map::new();
    for (k, v) in list_params(&params).iter() {
        map.insert(k.clone(), value_of(v));
    }
    let s = serde_json::Value::Object(map).to_string();
    let parsed: serde_json::Value = serde_json::from_str(&s).unwrap();
    assert_eq!(parsed["h"], serde_json::Value::from(params.h));
    assert_eq!(parsed["batch"], serde_json::Value::from(params.batch));
    assert_eq!(parsed.as_object().unwrap().len(), 16);
    assert_eq!(parsed["periodic"], serde_json::Value::from(false));
    assert_eq!(parsed["step_size"], serde_json::Value::from(2));
    assert_eq!(parsed["attract_range"], serde_json::Value::from(1.5));
}

// Formulas.

#[test]
fn potential_of_each_kind() {
    let p = Double::new();
    let plain = small_params();
    assert_eq!(potential(&p, 0, &plain, true), 0.0);
    assert_eq!(potential(&p, 4, &plain, true), 0.5);
    assert_eq!(potential(&p, 36, &plain, true), 1.0 / 6.0);
    assert_eq!(potential(&p, 37, &plain, true), 0.0);
    let screened = Params { screening: 2.0, ..plain };
    assert_eq!(potential(&p, 4, &screened, false), 0.5 * (-1.0f64).exp());
    let attractive = Params { attract_depth: 3.0, attract_range: 2.0, ..plain };
    assert_eq!(potential(&p, 4, &attractive, true), 0.5 - 3.0 * (-1.0f64).exp());
    assert_eq!(potential(&p, 4, &attractive, false), 0.5);
    let no_range = Params { attract_range: 0.0, ..attractive };
    assert_eq!(potential(&p, 4, &no_range, true), 0.5);
}

#[test]
fn profile_falls_like_a_cosine() {
    let p = Double::new();
    assert_eq!(radial_alpha_at(&p, 1.0, 4.0, 0.5), 1.0);
    assert_eq!(radial_alpha_at(&p, 2.0, 4.0, 0.5), 1.0);
    assert!((radial_alpha_at(&p, 3.0, 4.0, 0.5) - 0.5).abs() < 1e-12);
    assert_eq!(radial_alpha_at(&p, 4.0, 4.0, 0.5), 0.0);
    assert_eq!(radial_alpha_at(&p, 5.0, 4.0, 0.5), 0.0);
    assert_eq!(radial_alpha_at(&p, 3.9, 4.0, 7.0), 1.0);
    assert_eq!(radial_alpha_at(&p, 0.0, 4.0, -1.0), 1.0);
    assert_eq!(cover(&p, 5, 5, [5.0, 8.0], 4.0, 0.5), radial_alpha_at(&p, 3.0, 4.0, 0.5));
}

#[test]
fn energies_of_moves_and_of_all() {
    let p = Double::new();
    assert_eq!(move_energy(&p, 2.0, 5.0, 3.0, 0.25), 4.0 * 2.0 + 2.0 * 0.25);
    assert_eq!(total(&p, 2.0, 3.0, 0.25), 0.5 * 4.0 * 3.0 + 2.0 * 0.25);
    assert!(downhill(&p, 0.0));
    assert!(downhill(&p, -1.0));
    assert!(!downhill(&p, 1e-12));
    assert!(lucky(&p, 0.1, 5_000.0, 0));
    assert!(!lucky(&p, 0.1, 5_000.0, u64::MAX));
    assert!(!lucky(&p, 1.0, 0.0, 1 << 60));
}

#[test]
fn sums_run_from_first_to_last() {
    let p = Double::new();
    assert_eq!(sum(&p, &vec![]), 0.0);
    assert_eq!(sum(&p, &vec![1.0, 2.5, -0.5]), 3.0);
    let big = 1e16;
    assert_eq!(sum(&p, &vec![1.0, big, -big]), 0.0 + 1.0 + big - big);
}

#[test]
fn acceptance_is_a_share_of_the_proposals() {
    let p = Double::new();
    let mut s: Stats<f64> = blank(&p, small_params(), 4).stats();
    assert_eq!(s.acceptance(&p), 0.0);
    s.proposed = 8;
    s.accepted = 2;
    assert_eq!(s.acceptance(&p), 0.25);
}

// Tables.

#[test]
fn kernel_is_round_and_leaves_its_centre_out() {
    let p = Double::new();
    let params = Params { cutoff: 2.0, ..small_params() };
    let (rc, k) = build_kernel(&p, &params, true).unwrap();
    assert_eq!(rc, 2);
    assert_eq!(k.len(), 25);
    assert_eq!(k[12], 0.0);
    assert_eq!(k[13], 1.0);
    assert_eq!(k[14], 0.5);
    assert_eq!(k[2], 0.5);
    assert_eq!(k[6], 1.0 / 2f64.sqrt());
    assert_eq!(k[0], 0.0);
    for i in 0..25 {
        assert_eq!(k[i], k[24 - i]);
    }
}

#[test]
fn cutoff_spans_a_cell_at_least() {
    let p = Double::new();
    let params = Params { cutoff: 0.2, ..small_params() };
    let (rc, k) = build_kernel(&p, &params, true).unwrap();
    assert_eq!(rc, 1);
    assert!(k.iter().all(|&v| v == 0.0));
}

#[test]
fn no_table_for_an_endless_cutoff() {
    let p = Double::new();
    let params = Params { cutoff: 1e30, ..small_params() };
    assert!(build_kernel(&p, &params, true).is_none());
    assert!(coupling_kernel(&p, 1.0, 0.0, 1e30, 0.5).is_none());
    assert!(build_offset_table(&p, &params).is_none());
    assert!(Sim::new_blank(&p, params, 3).is_none());
    assert!(GpuSim::new_blank(&p, params, 3).is_none());
}

#[test]
fn coupling_tapers_to_its_edge() {
    let p = Double::new();
    let (rp, k, size) = coupling_kernel(&p, 2.0, 0.0, 4.0, 0.5).unwrap();
    assert_eq!((rp, size), (4, 9));
    assert_eq!(k.len(), 81);
    let at = |dy: usize, dx: usize| k[(4 + dy) * 9 + 4 + dx];
    assert_eq!(at(0, 0), 0.0);
    assert_eq!(at(0, 1), 2.0);
    assert_eq!(at(2, 0), 1.0);
    assert!((at(0, 3) - 1.0 / 3.0).abs() < 1e-12);
    assert_eq!(at(0, 4), 0.0);
    assert_eq!(at(3, 3), 0.0);
    assert_eq!(casting(&p, 1, 2.0, 1.0, 4.0, 0.5), 2.0 * (-1.0f64).exp());
}

#[test]
fn offsets_list_the_cells_within_the_cutoff() {
    let p = Double::new();
    let off = build_offset_table(&p, &Params { cutoff: 1.0, ..small_params() }).unwrap();
    assert_eq!(off.dy, vec![-1, 0, 0, 1]);
    assert_eq!(off.dx, vec![0, -1, 1, 0]);
    assert_eq!(off.v, vec![1.0, 1.0, 1.0, 1.0]);
    let wide = build_offset_table(&p, &Params { cutoff: 1.5, ..small_params() }).unwrap();
    assert_eq!(wide.v.len(), 8);
    assert_eq!(wide.v[0], (1.0 / 2f64.sqrt()) as f32 as f64);
}

#[test]
fn energy_counts_each_pair_once() {
    let p = Double::new();
    let off = build_offset_table(&p, &Params { cutoff: 1.0, ..small_params() }).unwrap();
    let occ = cells_of(&[(0, 0), (0, 1), (2, 3)], 3, 4);
    let mut u_edge = vec![0.0; 12];
    u_edge[11] = 0.25;
    u_edge[5] = 100.0;
    let e = total_energy_from_offsets(&p, &occ, &u_edge, &off, 3, 4, false, 2.0);
    assert_eq!(e, 4.0 * 1.0 + 2.0 * 0.25);
    let edge_pair = cells_of(&[(0, 0), (0, 3)], 3, 4);
    assert_eq!(total_energy_from_offsets(&p, &edge_pair, &u_edge, &off, 3, 4, false, 1.0), 0.0);
    assert_eq!(total_energy_from_offsets(&p, &edge_pair, &u_edge, &off, 3, 4, true, 1.0), 1.0);
}

// Convolution.

#[test]
fn torus_convolution_of_points() {
    let p = Double::new();
    let mut a = vec![0.0; 12];
    let mut b = vec![0.0; 12];
    a[1 * 4 + 3] = 2.0;
    b[2 * 4 + 2] = 5.0;
    let out = convolve_torus(&p, 3, 4, &a, &b);
    let mut want = vec![0.0; 12];
    want[0 * 4 + 1] = 10.0;
    assert!(all_close(&out, &want, 1e-9));
}

#[test]
fn walls_keep_a_table_from_coming_round() {
    let p = Double::new();
    let table: Vec<f64> = (1..=9).map(|v| v as f64).collect();
    let mut field = vec![0.0; 16];
    field[0] = 1.0;
    let walled = convolve(&p, &field, 4, 4, &table, 1, false);
    let mut want = vec![0.0; 16];
    want[0] = 5.0;
    want[1] = 6.0;
    want[4] = 8.0;
    want[5] = 9.0;
    assert!(all_close(&walled, &want, 1e-9));
    let round = convolve(&p, &field, 4, 4, &table, 1, true);
    want[3] = 4.0;
    want[7] = 7.0;
    want[12] = 2.0;
    want[13] = 3.0;
    want[15] = 1.0;
    assert!(all_close(&round, &want, 1e-9));
}

#[test]
fn full_convolution_is_a_product_of_polynomials() {
    let p = Double::new();
    let (out, oh, ow) = convolve_full(&p, &vec![1.0, 2.0], 1, 2, &vec![3.0, 4.0], 1, 2);
    assert_eq!((oh, ow), (1, 3));
    assert!(all_close(&out, &[3.0, 10.0, 8.0], 1e-9));
    let (out, oh, ow) = convolve_full(&p, &vec![1.0, 2.0, 3.0, 4.0], 2, 2, &vec![1.0, 1.0], 2, 1);
    assert_eq!((oh, ow), (3, 2));
    assert!(all_close(&out, &[1.0, 2.0, 4.0, 6.0, 3.0, 4.0], 1e-9));
}

#[test]
fn powers_of_two_from_below() {
    assert_eq!(pow2_from(0), Some(1));
    assert_eq!(pow2_from(1), Some(1));
    assert_eq!(pow2_from(5), Some(8));
    assert_eq!(pow2_from(8), Some(8));
    assert_eq!(pow2_from(usize::MAX), None);
    assert!(has_full(3, 3, 5, 5));
    assert!(!has_full(usize::MAX, 3, 5, 5));
}

// Strokes.

#[test]
fn stamps_keep_their_spacing() {
    let p = Double::new();
    assert!(stroke_samples(&p, &vec![], true).is_empty());
    assert!(stroke_samples(&p, &vec![[3.0, 4.0]], false).is_empty());
    let dot = stroke_samples(&p, &vec![[3.0, 4.0]], true);
    assert_eq!(dot.len(), 1);
    assert_eq!((dot[0].at, dot[0].dose), ([3.0, 4.0], 0.5));
    let line = stroke_samples(&p, &vec![[0.0, 0.0], [0.0, 1.0]], true);
    let at: Vec<[f64; 2]> = line.iter().map(|s| s.at).collect();
    assert_eq!(at, vec![[0.0, 0.0], [0.0, 0.5], [0.0, 1.0]]);
    assert!(line.iter().all(|s| s.dose == 0.5));
    let still = stroke_samples(&p, &vec![[2.0, 2.0], [2.0, 2.0]], false);
    assert_eq!(still.len(), 1);
    assert_eq!((still[0].at, still[0].dose), ([2.0, 2.0], 0.5));
}

#[test]
fn extent_leaves_room_for_the_brush() {
    let p = Double::new();
    let stamps = stroke_samples(&p, &vec![[1.5, 2.0], [3.0, 2.25]], true);
    let e = stroke_extent(&p, &stamps, 1.5);
    assert_eq!(e.corner(), Some((1 - 3, 2 - 3, 3 + 3 + 1 - (1 - 3), 3 + 3 + 1 - (2 - 3))).map(|(a, b, c, d)| {
        (a as i64, b as i64, c as usize, d as usize)
    }));
}

#[test]
fn dot_lays_its_dose() {
    let p = Double::new();
    let brush = Brush { thickness: 2.0, ..plain_brush() };
    let patch = stroke_patch(&p, &vec![[5.0, 5.0]], &brush, true).unwrap().unwrap();
    assert_eq!((patch.y0, patch.x0, patch.ph, patch.pw), (3, 3, 5, 5));
    let middle = 2 * 5 + 2;
    for i in 0..25 {
        if i == middle {
            assert!(close_to(patch.dq[i], 4.0 / 1.5 * 0.5, 1e-12));
            assert_eq!(patch.cov[i], 1.0);
        } else {
            assert_eq!(patch.dq[i], 0.0);
            assert_eq!(patch.cov[i], 0.0);
        }
    }
}

#[test]
fn doses_add_up_and_covers_do_not() {
    let p = Double::new();
    let brush = Brush { thickness: 2.0, hardness: 1.0, ..plain_brush() };
    let patch = stroke_patch(&p, &vec![[5.0, 5.0], [5.0, 5.0]], &brush, true).unwrap().unwrap();
    let middle = 2 * patch.pw + 2;
    assert!(close_to(patch.dq[middle], 2.0 * (4.0 / 2.0) * 0.5, 1e-12));
    assert_eq!(patch.cov[middle], 1.0);
}

#[test]
fn no_points_no_patch() {
    let p = Double::new();
    assert!(matches!(stroke_patch(&p, &vec![], &plain_brush(), true), Ok(None)));
    assert!(matches!(stroke_patch(&p, &vec![[1.0, 1.0]], &plain_brush(), false), Ok(None)));
}

#[test]
fn endless_brush_is_too_large() {
    let p = Double::new();
    let brush = Brush { thickness: 1e300, ..plain_brush() };
    assert_eq!(stroke_patch(&p, &vec![[1.0, 1.0]], &brush, true).err(), Some(TooLarge));
    let far = Brush { coupling: 1e30, thickness: 2.0, ..plain_brush() };
    let mut sim = blank(&p, small_params(), 5);
    let before = sim.u_edge().clone();
    assert_eq!(sim.paint_stroke(&p, &vec![[9.0, 9.0]], &far, true).err(), Some(TooLarge));
    assert_eq!(sim.u_edge(), &before);
    assert_eq!(sim.strokes.len(), 0);
}

// Set-up.

#[test]
fn particles_start_evenly_spread() {
    let p = Double::new();
    let sim = blank(&p, Params { h: 3, w: 4, ..small_params() }, 5);
    let at: Vec<usize> = (0..12).filter(|&i| sim.occupancy()[i]).collect();
    assert_eq!(at, vec![0, 2, 4, 7, 9]);
    assert_eq!(sim.stats().particles, 5);
    let full = blank(&p, Params { h: 3, w: 4, ..small_params() }, 50);
    assert_eq!(full.stats().particles, 12);
    let none = blank(&p, Params { h: 3, w: 4, ..small_params() }, 0);
    assert_eq!(none.stats().particles, 0);
    assert_eq!(none.stats().energy, 0.0);
}

#[test]
fn lines_clear_the_cells_they_close() {
    let p = Double::new();
    let params = Params { h: 4, w: 4, cutoff: 2.0, ..small_params() };
    let mut cov = vec![0.0; 16];
    cov[5] = 1.0;
    cov[6] = 0.5;
    let occ = cells_of(&[(1, 1), (1, 2), (3, 3)], 4, 4);
    let sim = Sim::new(&p, params, cov.clone(), occ.clone(), 2.0, true).unwrap();
    assert!(sim.blocked()[5]);
    assert!(!sim.blocked()[6]);
    assert!(!sim.occupancy()[5]);
    assert_eq!(sim.stats().particles, 2);
    assert!(close_to(sim.u_edge()[6], 2.0 * 1.0, 1e-9));
    assert!(close_to(sim.u_edge()[5], 2.0 * 0.5, 1e-9));
    let e = 1.0 * sim.u_edge()[6] + sim.u_edge()[15];
    assert!(close_to(sim.stats().energy, e, 1e-9));
    let open = Sim::new(&p, params, cov, occ, 2.0, false).unwrap();
    assert!(!open.blocked()[5]);
    assert_eq!(open.stats().particles, 3);
}

#[test]
fn batch_starts_no_smaller_than_its_least() {
    let p = Double::new();
    let sim = blank(&p, Params { batch: 2, batch_min: 7, ..small_params() }, 5);
    assert_eq!(sim.stats().batch, 7);
}

// Annealing.

#[test]
fn crowded_board_dies_and_shrinks_the_batch() {
    let p = Double::new();
    let params = Params { h: 1, w: 1, batch: 5, batch_min: 1, batch_decrement: 3, fail_limit: 2, ..small_params() };
    let mut sim = blank(&p, params, 1);
    assert!(!sim.step(&p));
    assert_eq!((sim.stats().dead_proposals, sim.stats().fail_streak, sim.stats().batch), (1, 1, 5));
    assert!(!sim.step(&p));
    assert_eq!((sim.stats().dead_proposals, sim.stats().fail_streak, sim.stats().batch), (2, 0, 2));
    sim.step_many(&p, 2);
    assert_eq!(sim.stats().batch, 1);
    sim.run(&p, 4);
    assert_eq!(sim.stats().batch, 1);
    assert_eq!(sim.stats().iteration, 8);
    assert_eq!(sim.stats().proposed, 0);
}

#[test]
fn empty_board_only_counts() {
    let p = Double::new();
    let mut sim = blank(&p, small_params(), 0);
    assert!(!sim.step(&p));
    assert_eq!(sim.stats().iteration, 1);
    assert_eq!(sim.stats().dead_proposals, 0);
    assert_eq!(sim.stream.position, 0);
}

#[test]
fn annealing_can_be_repeated_and_split() {
    let p = Double::new();
    let params = Params { batch: 8, temperature: 3_000.0, periodic: true, ..small_params() };
    let mut one = blank(&p, params, 70);
    let mut other = blank(&p, params, 70);
    one.step_many(&p, 150);
    other.step_many(&p, 60);
    other.run(&p, 90);
    assert_eq!(one.occupancy(), other.occupancy());
    assert_eq!(one.stats().energy, other.stats().energy);
    assert_eq!(one.stats().accepted, other.stats().accepted);
    assert!(one.stats().accepted > 0);
    assert!(one.stats().accepted < 150);
    assert_eq!(one.stats().proposed + one.stats().dead_proposals, 150);
}

#[test]
fn first_step_follows_the_generator() {
    let p = Double::new();
    let params = Params { h: 9, w: 9, batch: 1, ..small_params() };
    let mut sim = Sim::new(&p, params, vec![0.0; 81], cells_of(&[(4, 4)], 9, 9), 1.0, false).unwrap();
    let mut rng = Pcg64Mcg::seed_from_u64(1);
    let _ = rng.gen::<u64>();
    let dy = (rng.gen::<u64>() % 5) as i32 - 2;
    let dx = (rng.gen::<u64>() % 5) as i32 - 2;
    let moved = sim.step(&p);
    assert_eq!(moved, (dy, dx) != (0, 0));
    assert_eq!(sim.pos, vec![(4 + dy, 4 + dx)]);
}

#[test]
fn movers_never_land_on_closed_or_taken_cells() {
    let p = Double::new();
    let params = Params { h: 12, w: 12, batch: 20, cutoff: 3.0, ..small_params() };
    let mut cov = vec![0.0; 144];
    for x in 0..12 {
        cov[5 * 12 + x] = 1.0;
    }
    let occ: Vec<bool> = (0..144).map(|i| i % 3 == 0).collect();
    let mut sim = Sim::new(&p, params, cov, occ, 0.1, true).unwrap();
    let n = sim.stats().particles;
    for _ in 0..200 {
        sim.step(&p);
        assert_eq!(lit(sim.occupancy()), n);
        for i in 0..144 {
            assert!(!(sim.occupancy()[i] && sim.blocked()[i]));
        }
        for &(y, x) in sim.pos.iter() {
            assert!(sim.occupancy()[y as usize * 12 + x as usize]);
        }
    }
    assert!(sim.stats().accepted > 0);
}

// Paint.

#[test]
fn stroke_reports_what_it_did() {
    let p = Double::new();
    let params = Params { h: 24, w: 24, cutoff: 4.0, ..small_params() };
    let occ = cells_of(&[(10, 11)], 24, 24);
    let mut sim = Sim::new(&p, params, vec![0.0; 576], occ, 1.0, false).unwrap();
    let brush = Brush { thickness: 2.0, coupling: 4.0, ..plain_brush() };
    let report = sim.paint_stroke(&p, &vec![[10.0, 10.0]], &brush, true).unwrap();
    let q = 4.0 / 1.5 * 0.5;
    assert_eq!(report.painted_cells, 1);
    assert_eq!(report.blocked_new, 0);
    assert!(close_to(report.charge, q, 1e-12));
    assert!(close_to(report.de_field, q, 1e-9));
    assert!(close_to(sim.stats().energy, q, 1e-9));
    assert!(close_to(sim.u_edge()[10 * 24 + 12], q / 2.0, 1e-9));
    assert!(close_to(sim.paint[10 * 24 + 10], q, 1e-12));
    for y in 0..24usize {
        for x in 0..24usize {
            if y.abs_diff(10) > 7 || x.abs_diff(10) > 7 {
                assert_eq!(sim.u_edge()[y * 24 + x], 0.0);
            }
        }
    }
}

#[test]
fn hard_paint_closes_cells_and_undo_opens_them() {
    let p = Double::new();
    let params = Params { h: 16, w: 16, cutoff: 3.0, ..small_params() };
    let mut sim = blank(&p, params, 10);
    let brush = Brush { thickness: 4.0, coupling: 3.0, penetrability: 0.4, ..plain_brush() };
    let report = sim.paint_stroke(&p, &vec![[8.0, 8.0]], &brush, true).unwrap();
    assert_eq!(report.blocked_new, 9);
    assert_eq!(lit(sim.blocked()), 9);
    assert!(sim.blocked()[8 * 16 + 7]);
    let again = sim.paint_stroke(&p, &vec![[8.0, 8.0]], &brush, true).unwrap();
    assert_eq!(again.blocked_new, 0);
    assert!(sim.undo_stroke(&p));
    assert_eq!(lit(sim.blocked()), 9);
    assert!(sim.undo_stroke(&p));
    assert_eq!(lit(sim.blocked()), 0);
    assert!(sim.paint.iter().all(|&v| v == 0.0));
    assert!(!sim.undo_stroke(&p));
}

#[test]
fn segments_of_a_stroke_are_taken_back_together() {
    let p = Double::new();
    let params = Params { h: 16, w: 16, cutoff: 3.0, ..small_params() };
    let mut sim = blank(&p, params, 10);
    let brush = Brush { thickness: 3.0, coupling: 3.0, ..plain_brush() };
    let _ = sim.paint_stroke(&p, &vec![[4.0, 4.0], [4.0, 6.0]], &brush, true).unwrap();
    let _ = sim.paint_stroke(&p, &vec![[4.0, 6.0], [6.0, 6.0]], &brush, false).unwrap();
    assert_eq!(sim.strokes.len(), 1);
    assert!(sim.undo_stroke(&p));
    assert!(all_close(sim.u_edge(), &vec![0.0; 256], 1e-9));
}

#[test]
fn oldest_strokes_are_forgotten() {
    let p = Double::new();
    let params = Params { h: 8, w: 8, cutoff: 2.0, ..small_params() };
    let mut sim = blank(&p, params, 4);
    let brush = Brush { thickness: 1.0, coupling: 2.0, ..plain_brush() };
    for _ in 0..STROKE_UNDO_CAP + 3 {
        let _ = sim.paint_stroke(&p, &vec![[4.0, 4.0]], &brush, true).unwrap();
    }
    assert_eq!(sim.strokes.len(), STROKE_UNDO_CAP);
    let mut n = 0;
    while sim.undo_stroke(&p) {
        n += 1;
    }
    assert_eq!(n, STROKE_UNDO_CAP);
    sim.clear_paint(&p);
    assert!(sim.paint.iter().all(|&q| q == 0.0));
}

#[test]
fn stroke_beside_the_lattice_changes_nothing_but_the_stack() {
    let p = Double::new();
    let mut sim = blank(&p, small_params(), 10);
    let energy = sim.stats().energy;
    let report = sim.paint_stroke(&p, &vec![[-100.0, -100.0]], &plain_brush(), true).unwrap();
    assert_eq!(report.painted_cells, 0);
    assert_eq!(report.charge, 0.0);
    assert_eq!(sim.strokes.len(), 1);
    assert_eq!(sim.stats().energy, energy);
    let nothing = sim.paint_stroke(&p, &vec![], &plain_brush(), true).unwrap();
    assert_eq!(nothing.painted_cells, 0);
    assert_eq!(sim.strokes.len(), 1);
}

#[test]
fn small_torus_has_its_field_rebuilt() {
    let p = Double::new();
    let params = Params { h: 10, w: 10, cutoff: 3.0, periodic: true, ..small_params() };
    let occ = cells_of(&[(5, 6)], 10, 10);
    let mut sim = Sim::new(&p, params, vec![0.0; 100], occ, 1.0, false).unwrap();
    let brush = Brush { thickness: 2.0, coupling: 9.0, ..plain_brush() };
    let report = sim.paint_stroke(&p, &vec![[5.0, 5.0]], &brush, true).unwrap();
    let q = 4.0 / 1.5 * 0.5;
    assert!(close_to(sim.u_edge()[5 * 10 + 6], q, 1e-9));
    assert!(close_to(sim.u_edge()[5 * 10 + 7], q / 2.0, 1e-9));
    assert!(close_to(report.de_field, q, 1e-9));
    assert!(sim.undo_stroke(&p));
    assert!(all_close(sim.u_edge(), &vec![0.0; 100], 1e-9));
    assert!(sim.stats().energy.abs() < 1e-9);
}

#[test]
fn strokes_on_a_small_torus_are_taken_back_in_turn() {
    let p = Double::new();
    let params = Params { h: 16, w: 16, periodic: true, ..defaults() };
    let mut sim = blank(&p, params, 0);
    let narrow = Brush { thickness: 2.0, coupling: 4.0, ..plain_brush() };
    let wide = Brush { thickness: 3.0, ..plain_brush() };
    let _ = sim.paint_stroke(&p, &vec![[3.0, 3.0]], &narrow, true).unwrap();
    let first = sim.u_edge().clone();
    let _ = sim.paint_stroke(&p, &vec![[8.0, 8.0]], &wide, true).unwrap();
    let _ = sim.paint_stroke(&p, &vec![[8.0, 8.0], [8.0, 10.0]], &wide, false).unwrap();
    assert!(!all_close(sim.u_edge(), &first, 1e-3));
    assert!(sim.undo_stroke(&p));
    assert!(all_close(sim.u_edge(), &first, 1e-9));
    assert!(sim.undo_stroke(&p));
    assert!(all_close(sim.u_edge(), &vec![0.0; 256], 1e-9));
    let _ = sim.paint_stroke(&p, &vec![[8.0, 8.0]], &wide, true).unwrap();
    assert!(sim.undo_stroke(&p));
    assert!(all_close(sim.u_edge(), &vec![0.0; 256], 1e-9));
}

#[test]
fn annealing_between_paint_and_undo_stays() {
    let p = Double::new();
    let params = Params { h: 16, w: 16, cutoff: 3.0, ..small_params() };
    let mut sim = blank(&p, params, 20);
    let brush = Brush { thickness: 3.0, coupling: 3.0, ..plain_brush() };
    let _ = sim.paint_stroke(&p, &vec![[8.0, 8.0]], &brush, true).unwrap();
    sim.step_many(&p, 100);
    let gas = sim.occupancy().clone();
    assert!(sim.undo_stroke(&p));
    assert_eq!(sim.occupancy(), &gas);
    assert!(all_close(sim.u_edge(), &vec![0.0; 256], 1e-9));
    assert_eq!(sim.stats().energy, sim.total_energy(&p));
}

// Sessions, once more.

#[test]
fn sessions_are_created_on_sound_canvases_only() {
    let p = Double::new();
    let handle = SimHandle::create(&p, 8, 9, 7, 10, defaults()).unwrap();
    assert_eq!((handle.sim.params().h, handle.sim.params().w, handle.sim.params().seed), (8, 9, 7));
    assert_eq!(handle.sim.stats().particles, 10);
    assert_eq!(handle.telem.baseline_energy, handle.sim.stats().energy);
    assert!(SimHandle::create(&p, 0, 9, 7, 10, defaults()).is_none());
    assert!(SimHandle::create(&p, 8, -1, 7, 10, defaults()).is_none());
    assert!(SimHandle::create(&p, 8, 9, 7, -1, defaults()).is_none());
    assert!(SimHandle::create(&p, i64::MAX, 9, 7, 1, defaults()).is_none());
    let negative = SimHandle::create(&p, 2, 2, -1, 1, defaults()).unwrap();
    assert_eq!(negative.sim.params().seed, u64::MAX);
    assert!(has_geometry(&defaults()));
    assert!(!has_geometry(&Params { step_size: -1, ..defaults() }));
}

#[test]
fn ticks_count_and_pauses_hold() {
    let p = Double::new();
    let mut handle = make_handle(&p, 16, 16, 20);
    assert_eq!(handle.tick(&p, 6), 6);
    assert_eq!(handle.telem.last_tick_iterations, 6);
    assert_eq!(handle.tick(&p, 0), 0);
    assert_eq!(handle.tick(&p, -4), 0);
    handle.pause();
    assert_eq!(handle.tick(&p, 6), 0);
    assert_eq!(handle.sim.stats().iteration, 6);
    handle.resume();
    assert_eq!(handle.tick(&p, 2), 2);
    assert_eq!(handle.sim.stats().iteration, 8);
    handle.note_pace(&p, 6, 0.5);
    assert_eq!(handle.telem.last_mps, 6.0 * 64.0 / 0.5);
    handle.note_pace(&p, 6, 0.0);
    assert_eq!(handle.telem.last_mps, 6.0 * 64.0 / 0.5);
}

#[test]
fn strokes_are_painted_when_the_brush_lifts() {
    let p = Double::new();
    let mut handle = make_handle(&p, 40, 40, 50);
    handle.paint_stroke_point(3.0, 4.0);
    assert!(handle.stroke.is_none());
    handle.paint_begin(&p, plain_brush(), -0.3);
    handle.paint_end(&p);
    assert_eq!(handle.sim.strokes.len(), 0);
    handle.paint_begin(&p, plain_brush(), -0.3);
    handle.paint_stroke_point(20.0, 10.0);
    handle.paint_stroke_point(22.0, 11.0);
    assert_eq!(handle.stroke.as_ref().unwrap().points, vec![[10.0, 20.0], [11.0, 22.0]]);
    assert_eq!(handle.stroke.as_ref().unwrap().brush.sign, -1.0);
    let before = handle.sim.stats().energy;
    handle.paint_end(&p);
    assert!(handle.stroke.is_none());
    assert_eq!(handle.sim.strokes.len(), 1);
    assert!(handle.sim.stats().energy < before);
    assert_eq!(handle.telem.baseline_energy, handle.sim.stats().energy);
    assert!(handle.undo(&p));
    assert!(!handle.undo(&p));
    assert!(close_to(handle.sim.stats().energy, before, 1e-9));
}

#[test]
fn clearing_takes_all_strokes_back() {
    let p = Double::new();
    let mut handle = make_handle(&p, 30, 30, 20);
    for k in 0..3 {
        handle.paint_begin(&p, plain_brush(), 1.0);
        handle.paint_stroke_point(10.0 + k as f64, 12.0);
        handle.paint_end(&p);
    }
    assert_eq!(handle.sim.strokes.len(), 3);
    handle.clear_paint(&p);
    assert_eq!(handle.sim.strokes.len(), 0);
    assert!(all_close(handle.sim.u_edge(), &vec![0.0; 900], 1e-9));
}

#[test]
fn clearing_wipes_forgotten_strokes_off() {
    let p = Double::new();
    let mut handle = SimHandle::create(&p, 64, 64, 1, 0, defaults()).unwrap();
    let hard = Brush { penetrability: 0.4, ..plain_brush() };
    for _ in 0..STROKE_UNDO_CAP + 1 {
        handle.paint_begin(&p, hard, 1.0);
        handle.paint_stroke_point(32.0, 32.0);
        handle.paint_end(&p);
    }
    assert!(lit(handle.sim.blocked()) > 0);
    handle.clear_paint(&p);
    assert!(all_close(handle.sim.u_edge(), &vec![0.0; 64 * 64], 1e-6));
    assert!(handle.sim.paint.iter().all(|&q| q == 0.0));
    assert_eq!(lit(handle.sim.blocked()), 0);
    assert!(!handle.undo(&p));
}

#[test]
fn clearing_leaves_lines_and_particles() {
    let p = Double::new();
    let params = Params { h: 12, w: 12, cutoff: 3.0, ..small_params() };
    let mut cov = vec![0.0; 144];
    cov[30] = 1.0;
    let occ = cells_of(&[(1, 1), (8, 8)], 12, 12);
    let mut sim = Sim::new(&p, params, cov, occ.clone(), 0.5, true).unwrap();
    let (u, e) = (sim.u_edge().clone(), sim.stats().energy);
    let brush = Brush { thickness: 3.0, coupling: 3.0, penetrability: 0.2, ..plain_brush() };
    let _ = sim.paint_stroke(&p, &vec![[4.0, 4.0]], &brush, true).unwrap();
    sim.clear_paint(&p);
    assert!(all_close(sim.u_edge(), &u, 1e-9));
    assert!(close_to(sim.stats().energy, e, 1e-9));
    assert_eq!(sim.occupancy(), &occ);
    assert!(sim.blocked()[30]);
    assert_eq!(lit(sim.blocked()), 1);
}

#[test]
fn blank_is_the_one_preset() {
    let p = Double::new();
    let mut handle = make_handle(&p, 12, 12, 20);
    assert!(!handle.load_preset(&p, &"stripes".to_string()));
    assert_eq!(handle.sim.stats().particles, 20);
    assert!(handle.load_preset(&p, &"blank".to_string()));
    assert_eq!(handle.sim.stats().particles, 0);
    assert_eq!(handle.sim.params().h, 12);
    assert_eq!(handle.telem.baseline_energy, 0.0);
}

#[test]
fn live_stats_come_in_order() {
    let p = Double::new();
    let mut handle = make_handle(&p, 16, 16, 64);
    let start = handle.sim.stats().energy;
    handle.tick(&p, 10);
    handle.note_pace(&p, 10, 2.0);
    let s = handle.sim.stats();
    assert_eq!(
        handle.live_stats(&p),
        vec![
            10.0,
            64.0,
            5_000.0,
            s.energy,
            s.acceptance(&p),
            10.0 * 64.0 / 2.0,
            0.25,
            start - s.energy,
            s.batch as f64
        ]
    );
}

fn number(v: Option<ParamValue<f64>>) -> Option<f64> {
    match v? {
        ParamValue::Count(n) => Some(n as f64),
        ParamValue::Seed(n) => Some(n as f64),
        ParamValue::Step(n) => Some(n as f64),
        ParamValue::Flag(_) => None,
        ParamValue::Number(x) => Some(x),
    }
}

#[test]
fn parameters_are_read_by_name() {
    let p = Double::new();
    let handle = make_handle(&p, 16, 18, 4);
    let of = |key: &str| number(read_param(&handle.sim, &key.to_string()));
    assert_eq!(of("h"), Some(16.0));
    assert_eq!(of("w"), Some(18.0));
    assert_eq!(of("temperature"), Some(5_000.0));
    assert_eq!(of("strength"), Some(1.0));
    assert_eq!(of("screening"), Some(0.0));
    assert_eq!(of("cutoff"), Some(12.0));
    assert_eq!(of("charge"), Some(1.0));
    assert_eq!(of("attract_depth"), Some(0.0));
    assert_eq!(of("attract_range"), Some(1.5));
    assert_eq!(of("batch"), Some(64.0));
    assert_eq!(of("batch_min"), Some(1.0));
    assert_eq!(of("batch_decrement"), Some(1.0));
    assert_eq!(of("fail_limit"), Some(12.0));
    assert_eq!(of("step_size"), Some(2.0));
    assert_eq!(of("colour"), None);
    assert_eq!(of("seed"), None);
}

#[test]
fn temperature_is_the_one_parameter_to_set() {
    let p = Double::new();
    let mut handle = make_handle(&p, 8, 8, 4);
    apply_param(&mut handle.sim, &"charge".to_string(), 9.0);
    assert_eq!(handle.sim.params().charge, 1.0);
    let entries = vec![
        ("charge".to_string(), Some(9.0)),
        ("temperature".to_string(), Some(10.0)),
        ("temperature".to_string(), Some(20.0)),
        ("periodic".to_string(), Some(0.0)),
    ];
    assert!(apply_params(&mut handle.sim, &entries));
    assert_eq!(handle.sim.params().temperature, 20.0);
    assert_eq!(handle.sim.params().charge, 1.0);
    assert!(apply_params(&mut handle.sim, &vec![]));
    for (k, _) in list_params(handle.sim.params()).iter() {
        assert!(apply_params(&mut handle.sim, &vec![(k.clone(), Some(20.0))]));
    }
}

#[test]
fn unknown_parameters_are_refused_as_a_whole() {
    let p = Double::new();
    let mut handle = SimHandle::create(&p, 16, 16, 1, 10, defaults()).unwrap();
    assert!(!apply_params(&mut handle.sim, &vec![("no_such_param".to_string(), Some(1.0))]));
    let mixed = vec![("temperature".to_string(), Some(9.0)), ("no_such_param".to_string(), Some(1.0))];
    assert!(!apply_params(&mut handle.sim, &mixed));
    let textual = vec![("temperature".to_string(), Some(9.0)), ("charge".to_string(), None)];
    assert!(!apply_params(&mut handle.sim, &textual));
    assert_eq!(handle.sim.params().temperature, 5_000.0);
}

// Scenarios.

fn stage(temperature: f64, iterations: u64) -> Stage<f64> {
    Stage { temperature, iterations, strokes: vec![], brush: None, energy_sample_every: fifty() }
}

fn scenario(stages: Vec<Stage<f64>>) -> Scenario<f64> {
    Scenario {
        h: 16,
        w: 16,
        seed: 3,
        particles: 30,
        cutoff: 4.0,
        screening: 0.0,
        charge: 1.0,
        strength: 1.0,
        attract_depth: 0.0,
        attract_range: 0.5,
        periodic: false,
        batch: sixtyfour(),
        batch_min: one_us(),
        batch_decrement: one_us(),
        fail_limit: twelve_us(),
        step_size: two_i32(),
        stages,
        accept_tol: 0.01,
        energy_tol: 0.01,
        chains: one_us(),
        plain_brush: plain_brush(),
        plain_temperature: 5_000.0,
    }
}

#[test]
fn defaults_of_a_scenario() {
    assert_eq!((sixtyfour(), one_us(), twelve_us(), two_i32(), fifty()), (64, 1, 12, 2, 50));
}

#[test]
fn one_chain_is_the_gas_annealed() {
    let p = Double::new();
    let mut sc = scenario(vec![stage(20_000.0, 120), stage(2_000.0, 30)]);
    sc.batch = 4;
    let run = run_scenario(&p, &sc).unwrap();
    let params = Params {
        h: 16,
        w: 16,
        seed: 3,
        cutoff: 4.0,
        batch: 4,
        attract_range: 0.5,
        temperature: 20_000.0,
        ..defaults()
    };
    let mut sim = blank(&p, params, 30);
    let mut sampled = vec![];
    for k in 0..120 {
        sim.step(&p);
        if k % 50 == 0 {
            sampled.push(sim.stats().energy);
        }
    }
    let mid = sim.stats();
    assert_eq!(run.stages.len(), 2);
    let first = run.stages[0];
    assert_eq!((first.stage, first.iterations, first.temperature), (0, 120, 20_000.0));
    assert_eq!((first.proposed, first.accepted), (mid.proposed, mid.accepted));
    assert_eq!(first.acceptance, mid.acceptance(&p));
    assert_eq!(first.energy, mid.energy);
    assert!(close_to(first.energy_mean_tail, (sampled[1] + sampled[2]) / 2.0, 1e-12));
    assert_eq!(first.particles, 30);
    sim.set_temperature(2_000.0);
    sim.step_many(&p, 30);
    let end = sim.stats();
    assert_eq!(run.stages[1].proposed, end.proposed - mid.proposed);
    assert_eq!(run.stages[1].accepted, end.accepted - mid.accepted);
    assert_eq!(run.final_energy, end.energy);
    assert_eq!(run.final_particles, 30);
}

#[test]
fn chains_are_averaged() {
    let p = Double::new();
    let mut sc = scenario(vec![stage(20_000.0, 60)]);
    sc.batch = 4;
    sc.chains = 3;
    let run = run_scenario(&p, &sc).unwrap();
    let chains: Vec<StageResult<f64>> = (0..3).map(|c| run_chain(&p, &sc, c).unwrap().stages[0]).collect();
    let sum_prop: u64 = chains.iter().map(|r| r.proposed).sum();
    let sum_acc: u64 = chains.iter().map(|r| r.accepted).sum();
    assert_eq!((run.stages[0].proposed, run.stages[0].accepted), (sum_prop, sum_acc));
    let mean: f64 = chains.iter().map(|r| r.energy).sum::<f64>() / 3.0;
    assert!(close_to(run.stages[0].energy, mean, 1e-12));
    assert_eq!(run.final_energy, chains[2].energy);
    assert!(chains[0].energy != chains[1].energy);
    assert!(chains.iter().all(|r| r.particles == 30));
    let alone = blank(
        &p,
        Params { h: 16, w: 16, seed: 3 + 997, cutoff: 4.0, batch: 4, attract_range: 0.5, temperature: 20_000.0, ..defaults() },
        30,
    );
    let mut alone = alone;
    alone.run(&p, 60);
    assert_eq!(chains[1].energy, alone.stats().energy);
}

#[test]
fn stages_paint_before_they_anneal() {
    let p = Double::new();
    let mut painted = stage(5_000.0, 0);
    painted.strokes = vec![vec![[8.0, 8.0], [8.0, 9.0]]];
    painted.brush = Some(Brush { thickness: 2.0, coupling: 3.0, ..plain_brush() });
    let run = run_scenario(&p, &scenario(vec![painted])).unwrap();
    let mut sim = blank(&p, Params { h: 16, w: 16, seed: 3, cutoff: 4.0, attract_range: 0.5, ..defaults() }, 30);
    let e0 = sim.stats().energy;
    let brush = Brush { thickness: 2.0, coupling: 3.0, ..plain_brush() };
    let _ = sim.paint_stroke(&p, &vec![[8.0, 8.0], [8.0, 9.0]], &brush, true).unwrap();
    assert!(sim.stats().energy != e0);
    assert_eq!(run.stages[0].energy, sim.stats().energy);
    assert_eq!(run.stages[0].energy_mean_tail, sim.stats().energy);
    assert_eq!(run.stages[0].acceptance, 0.0);
}

#[test]
fn scenario_without_stages() {
    let p = Double::new();
    let run = run_scenario(&p, &scenario(vec![])).unwrap();
    assert_eq!(run.stages.len(), 0);
    assert_eq!(run.final_particles, 30);
}

#[test]
fn scenario_too_large_for_the_machine() {
    let p = Double::new();
    let mut sc = scenario(vec![stage(5_000.0, 1)]);
    sc.cutoff = 1e30;
    assert_eq!(run_scenario(&p, &sc).err(), Some(TooLarge));
}

#[test]
fn scenarios_that_cannot_be_run() {
    let sound = || scenario(vec![stage(1.0, 10), stage(2.0, 20)]);
    assert!(sound().can_be_run());
    let mut sc = sound();
    sc.stages[1].energy_sample_every = 0;
    assert!(!sc.can_be_run());
    sc.stages[1].iterations = 0;
    assert!(sc.can_be_run());
    let mut sc = sound();
    sc.stages[0].iterations = u64::MAX - 20;
    assert!(sc.can_be_run());
    sc.chains = 2;
    assert!(!sc.can_be_run());
    let mut sc = sound();
    sc.fail_limit = usize::MAX;
    assert!(sc.can_be_run());
    sc.stages[0].iterations = 1 << 33;
    assert!(!sc.can_be_run());
    let mut sc = sound();
    sc.step_size = -1;
    assert!(!sc.can_be_run());
    let mut sc = sound();
    sc.h = usize::MAX;
    assert!(!sc.can_be_run());
}

fn result(acceptance: f64, energy_mean_tail: f64, particles: usize) -> RunResult<f64> {
    let r = StageResult {
        stage: 0,
        temperature: 1.0,
        iterations: 1,
        proposed: 1,
        accepted: 1,
        acceptance,
        energy: 0.0,
        energy_mean_tail,
        particles,
    };
    RunResult { stages: vec![r], final_energy: 0.0, final_particles: particles }
}

#[test]
fn comparison_names_each_mismatch() {
    let p = Double::new();
    let found = |a: &RunResult<f64>, b: &RunResult<f64>| compare(&p, 0.01, 0.01, a, b);
    let ours = result(0.5, 100.0, 10);
    assert_eq!(found(&ours, &result(0.504, 100.5, 10)), vec![]);
    assert_eq!(found(&ours, &result(0.6, 100.0, 10)), vec![Mismatch::Acceptance(0)]);
    assert_eq!(found(&ours, &result(0.5, 102.0, 10)), vec![Mismatch::Energy(0)]);
    assert_eq!(found(&ours, &result(0.5, 100.0, 11)), vec![Mismatch::Particles(0), Mismatch::FinalParticles]);
    assert_eq!(
        found(&ours, &result(0.9, 0.0, 11)),
        vec![Mismatch::Acceptance(0), Mismatch::Energy(0), Mismatch::Particles(0), Mismatch::FinalParticles]
    );
    let none = RunResult { stages: vec![], final_energy: 0.0, final_particles: 3 };
    assert_eq!(found(&ours, &none), vec![Mismatch::StageCount]);
    assert_eq!(found(&result(0.0, 0.0, 1), &result(0.005, 0.0, 1)), vec![]);
    assert_eq!(found(&result(1.5, 0.0, 1), &result(1.51, 0.0, 1)), vec![]);
}

// Sweeps on a device.

#[test]
fn device_run_follows_the_generator() {
    let p = Double::new();
    let params = Params { h: 70, w: 50, cutoff: 6.0, seed: 9, ..defaults() };
    let (mut sim, up) = GpuSim::new_blank(&p, params, 80).unwrap();
    assert_eq!(lit(&up.occ), 80);
    assert_eq!(lit(&up.blocked), 0);
    assert!(up.u_edge.iter().all(|&u| u == 0.0));
    let mut rng = Pcg64Mcg::seed_from_u64(9);
    for _ in 0..20 {
        let oy = rng.gen_range(0..16i32);
        let ox = rng.gen_range(0..16i32);
        assert_eq!(sim.begin_sweep(), (oy, ox));
        for colour in 0..4u32 {
            let launch = sim.launch(&p, colour, oy, ox, 5_000.0, 64).unwrap();
            assert_eq!(launch.seed, rng.gen::<u32>().max(1));
            assert_eq!(launch.ntiles as usize, launch.tile_y.len());
        }
        sim.end_sweep();
    }
    assert_eq!(sim.stats().iteration, 20);
}

#[test]
fn device_runs_can_be_repeated() {
    let p = Double::new();
    let params = Params { h: 40, w: 40, cutoff: 3.0, seed: 5, ..defaults() };
    let (mut one, _) = GpuSim::new_blank(&p, params, 10).unwrap();
    let (mut other, _) = GpuSim::new_blank(&p, params, 200).unwrap();
    for _ in 0..10 {
        let at = one.begin_sweep();
        assert_eq!(at, other.begin_sweep());
        for colour in 0..4 {
            let a = one.launch(&p, colour, at.0, at.1, 100.0, 8).map(|l| l.seed);
            assert_eq!(a, other.launch(&p, colour, at.0, at.1, 100.0, 8).map(|l| l.seed));
        }
    }
}

#[test]
fn launch_carries_the_run() {
    let p = Double::new();
    let params = Params { h: 20, w: 30, cutoff: 1.5, charge: 0.1, seed: 5, ..defaults() };
    let (mut sim, _) = GpuSim::new_blank(&p, params, 10).unwrap();
    let l = sim.launch(&p, 0, 3, 5, 300.0, 7).unwrap();
    assert_eq!((l.h, l.w, l.l_edge, l.rc, l.hop, l.noff, l.moves, l.periodic), (20, 30, 16, 2, 2, 8, 7, 0));
    assert_eq!(l.tile_y, vec![-13, -13, 19, 19]);
    assert_eq!(l.tile_x, vec![-11, 21, -11, 21]);
    assert_eq!(l.q, 0.1f32 as f64);
    assert_eq!(l.beta, (1.0 / (KB_EV * 300.0)) as f32 as f64);
    let torus = Params { periodic: true, ..params };
    let (mut round, _) = GpuSim::new_blank(&p, torus, 10).unwrap();
    assert!(round.launch(&p, 0, 3, 5, 300.0, 7).is_none());
    assert_eq!(round.state, GpuSim::new_blank(&p, torus, 10).unwrap().0.state);
}

#[test]
fn counters_are_taken_in() {
    let p = Double::new();
    let params = Params { h: 40, w: 40, cutoff: 3.0, ..defaults() };
    let (mut sim, up) = GpuSim::new_blank(&p, params, 100).unwrap();
    let e0 = sim.energy();
    assert_eq!(sim.take_in(&p, &vec![3, 4], &vec![10, 20], &vec![0.5, -2.0]), 30);
    let s = sim.stats();
    assert_eq!((s.accepted, s.proposed, s.particles, s.batch, s.dead_proposals), (7, 30, 100, 16, 0));
    assert_eq!(sim.energy(), e0 + (0.5 - 2.0));
    assert_eq!(sim.recompute_energy(&p, &up.occ, &up.u_edge), e0);
    assert_eq!(sim.energy(), e0);
    sim.set_temperature(77.0);
    assert_eq!(sim.params().temperature, 77.0);
    assert_eq!(sim.stats().temperature, 77.0);
    let none = vec![false; 1600];
    assert_eq!(sim.recompute_energy(&p, &none, &up.u_edge), 0.0);
    assert_eq!(sim.stats().particles, 0);
}

#[test]
fn device_memory_adds_up() {
    let p = Double::new();
    let params = Params { h: 40, w: 70, cutoff: 1.0, ..defaults() };
    let (sim, _) = GpuSim::new_blank(&p, params, 100).unwrap();
    let tiles = (2 + 1) * (3 + 1);
    let cells = 40 * 70;
    assert_eq!(sim.max_tiles, tiles as u32);
    assert_eq!(sim.tile_edge(), 16);
    assert_eq!(sim.peak_gpu_bytes(), (cells * 16 + 4 * 4 * 3 + tiles * 32 + 48 + 16) as u64);
    let small = Params { h: 2, w: 2, cutoff: 1.0, ..defaults() };
    let (sim, up) = GpuSim::from_state(&p, small, vec![true, true, false, false], vec![false; 4], vec![0.0; 4]).unwrap();
    assert_eq!(sim.peak_gpu_bytes(), 304);
    assert_eq!((up.occ, up.blocked), (vec![true, true, false, false], vec![false; 4]));
    let wide = GpuSim::new_blank(&p, Params { cutoff: 19.5, ..params }, 1).unwrap().0;
    assert_eq!(wide.tile_edge(), 21);
}

#[test]
fn device_starts_from_the_gas_on_the_host() {
    let p = Double::new();
    let params = Params { h: 12, w: 12, cutoff: 3.0, ..defaults() };
    let mut cov = vec![0.0; 144];
    cov[17] = 1.0;
    let occ: Vec<bool> = (0..144).map(|i| i % 5 == 2).collect();
    let host = Sim::new(&p, params, cov.clone(), occ.clone(), 0.7, true).unwrap();
    let (sim, up) = GpuSim::new(&p, params, cov, occ, 0.7, true).unwrap();
    assert_eq!(&up.occ, host.occupancy());
    assert_eq!(&up.blocked, host.blocked());
    assert!(!up.occ[17]);
    let single: Vec<f64> = host.u_edge().iter().map(|&u| u as f32 as f64).collect();
    assert_eq!(up.u_edge, single);
    assert!(close_to(sim.energy(), host.stats().energy, 1e-6));
    assert_eq!(sim.stats().particles, host.stats().particles);
}

#[test]
fn sweeps_are_due_until_the_target() {
    assert!(GpuSim::<f64>::sweep_is_due(0, 0));
    assert!(!GpuSim::<f64>::sweep_is_due(1, 0));
    assert!(GpuSim::<f64>::sweep_is_due(9, 10));
    assert!(!GpuSim::<f64>::sweep_is_due(10, 10));
}

#[test]
fn a_sweep_goes_over_the_colours_in_turn() {
    let p = Double::new();
    let params = Params { h: 40, w: 40, cutoff: 3.0, seed: 5, ..defaults() };
    let (mut one, _) = GpuSim::new_blank(&p, params, 10).unwrap();
    let (mut other, _) = GpuSim::new_blank(&p, params, 10).unwrap();
    let mut sweep = one.open_sweep();
    let at = other.begin_sweep();
    assert_eq!((sweep.oy, sweep.ox, sweep.next, sweep.attempts), (at.0, at.1, 0, 0));
    let mut launches = 0;
    for colour in 0..4 {
        if let Some(l) = other.launch(&p, colour, at.0, at.1, 100.0, 8) {
            let m = one.next_launch(&p, &mut sweep, 100.0, 8).unwrap();
            assert_eq!((m.seed, &m.tile_y, &m.tile_x), (l.seed, &l.tile_y, &l.tile_x));
            assert_eq!(sweep.next, colour + 1);
            assert!(one.take_in_counters(&p, &mut sweep, &vec![1, 2], &vec![4, 5], &vec![0.25]));
            launches += 1;
        }
    }
    assert!(one.next_launch(&p, &mut sweep, 100.0, 8).is_none());
    assert_eq!(one.state, other.state);
    assert_eq!((sweep.next, sweep.attempts), (4, 9 * launches));
    assert_eq!((one.stats().accepted, one.stats().proposed), (3 * launches, 9 * launches));
}

#[test]
fn colours_without_tiles_are_passed_over() {
    let p = Double::new();
    let torus = Params { h: 20, w: 30, cutoff: 1.5, periodic: true, ..defaults() };
    let (mut sim, _) = GpuSim::new_blank(&p, torus, 10).unwrap();
    let mut sweep = sim.open_sweep();
    let state = sim.state;
    assert!(sim.next_launch(&p, &mut sweep, 300.0, 7).is_none());
    assert_eq!((sweep.next, sim.state), (4, state));
}

#[test]
fn counters_that_overflow_are_not_taken_in() {
    let p = Double::new();
    let params = Params { h: 40, w: 40, cutoff: 3.0, ..defaults() };
    let (mut sim, _) = GpuSim::new_blank(&p, params, 10).unwrap();
    let mut sweep = sim.open_sweep();
    sim.attempted = u64::MAX - 4;
    let e0 = sim.energy();
    assert!(!sim.take_in_counters(&p, &mut sweep, &vec![1], &vec![5], &vec![1.0]));
    assert_eq!((sim.attempted, sim.accepted, sim.energy(), sweep.attempts), (u64::MAX - 4, 0, e0, 0));
    assert!(sim.take_in_counters(&p, &mut sweep, &vec![1], &vec![4], &vec![1.0]));
    assert_eq!((sim.attempted, sweep.attempts), (u64::MAX, 4));
}

// What holds of any gas.

#[test]
fn a_cold_gas_goes_downhill() {
    let p = Double::new();
    let params = Params { h: 16, w: 16, cutoff: 4.0, temperature: 0.0, ..small_params() };
    let mut sim = blank(&p, params, 40);
    for _ in 0..200 {
        let before = sim.stats().energy;
        let _ = sim.step(&p);
        assert!(sim.stats().energy <= before + 1e-9);
    }
    assert_eq!(lit(sim.occupancy()), 40);
}

#[test]
fn a_step_is_counted_once() {
    let p = Double::new();
    let params = Params { h: 8, w: 8, cutoff: 2.0, ..small_params() };
    let mut sim = blank(&p, params, 30);
    for _ in 0..100 {
        let a = sim.stats();
        let took = sim.step(&p);
        let b = sim.stats();
        assert_eq!(b.iteration, a.iteration + 1);
        assert_eq!(b.accepted, a.accepted + u64::from(took));
        assert_eq!((b.proposed - a.proposed) + (b.dead_proposals - a.dead_proposals), 1);
        assert!(!took || b.proposed == a.proposed + 1);
        assert!(b.batch <= a.batch);
    }
}

#[test]
fn strokes_of_opposite_signs_do_the_opposite() {
    let p = Double::new();
    let params = Params { h: 16, w: 16, cutoff: 3.0, ..small_params() };
    let brush = Brush { thickness: 3.0, coupling: 3.0, penetrability: 0.5, ..plain_brush() };
    let path = vec![[6.0, 6.0], [8.5, 9.0]];
    let mut one = blank(&p, params, 20);
    let mut two = blank(&p, params, 20);
    let a = one.paint_stroke(&p, &path, &brush, true).unwrap();
    let b = two.paint_stroke(&p, &path, &Brush { sign: -brush.sign, ..brush }, true).unwrap();
    assert!(a.charge != 0.0 && a.de_field != 0.0 && a.blocked_new > 0);
    assert_eq!((a.painted_cells, a.blocked_new), (b.painted_cells, b.blocked_new));
    assert!((a.charge + b.charge).abs() < 1e-9 && (a.de_field + b.de_field).abs() < 1e-9);
    assert_eq!(one.blocked(), two.blocked());
    assert!(one.u_edge().iter().zip(two.u_edge()).all(|(u, v)| (u + v).abs() < 1e-9));
}

#[test]
fn positive_paint_raises_the_potential() {
    let p = Double::new();
    let params = Params { h: 16, w: 16, cutoff: 3.0, ..small_params() };
    let brush = Brush { sign: 1.0, thickness: 3.0, coupling: 5.0, ..plain_brush() };
    let mut sim = blank(&p, params, 0);
    let _ = sim.paint_stroke(&p, &vec![[6.0, 6.0], [8.5, 9.0]], &brush, true).unwrap();
    assert!(sim.u_edge().iter().all(|&u| u >= -1e-12));
    assert!(sim.u_edge().iter().any(|&u| u > 0.1));
}

#[test]
fn coupling_tables_are_even() {
    let p = Double::new();
    let (rp, k, n) = coupling_kernel(&p, 2.0, 3.0, 4.5, 0.3).unwrap();
    for i in 0..n {
        for j in 0..n {
            let v = k[i * n + j];
            assert_eq!(v, k[(2 * rp - i) * n + j]);
            assert_eq!(v, k[i * n + 2 * rp - j]);
            assert_eq!(v, k[j * n + i]);
        }
    }
}

#[test]
fn gases_set_up_alike_run_alike() {
    let p = Double::new();
    let params = Params { h: 12, w: 10, cutoff: 3.0, seed: 11, ..small_params() };
    let cov: Vec<f64> = (0..120).map(|c| if c % 10 == 4 { 0.8 } else { 0.0 }).collect();
    let occ: Vec<bool> = (0..120).map(|c| c % 3 == 0).collect();
    let mut one = Sim::new(&p, params, cov.clone(), occ.clone(), 0.7, true).unwrap();
    let mut two = Sim::new(&p, params, cov, occ, 0.7, true).unwrap();
    one.run(&p, 150);
    two.run(&p, 100);
    two.run(&p, 50);
    assert_eq!(one.occupancy(), two.occupancy());
    assert_eq!(one.stats().energy, two.stats().energy);
    assert!((0..120).all(|c| c % 10 != 4 || !one.occupancy()[c]));
}

fn as_number(text: &String) -> Option<f64> {
    text.parse().ok()
}

#[test]
fn parameters_are_loaded_from_text() {
    let p = Double::new();
    let mut sim = blank(&p, Params { h: 8, w: 8, cutoff: 2.0, ..small_params() }, 4);
    assert!(load_params(&mut sim, r#"{"temperature": 321.5, "h": 9, "periodic": true}"#, &as_number));
    assert_eq!((sim.params().temperature, sim.params().h, sim.params().periodic), (321.5, 8, false));
    assert!(load_params(&mut sim, r#" { "temperature" : 1e3 } "#, &as_number));
    assert_eq!(sim.params().temperature, 1000.0);
    assert!(load_params(&mut sim, "{}", &as_number));
    assert!(load_params(&mut sim, r#"{"temperature": 18446744073709551615}"#, &as_number));
    assert_eq!(sim.params().temperature, 18446744073709551615u64 as f64);
    for text in [
        "",
        "[1]",
        "7",
        "{\"temperature\": 5",
        "{\"temperature\": \"5\"}",
        "{\"temperature\": true}",
        "{\"temperature\": 5, \"colour\": 1}",
        "{\"temperature\": 5, \"periodic\": null}",
    ] {
        assert!(!load_params(&mut sim, text, &as_number), "{text}");
        assert_eq!(sim.params().temperature, 18446744073709551615u64 as f64);
    }
}

#[test]
fn dumped_parameters_can_be_loaded() {
    let p = Double::new();
    let mut sim = blank(&p, Params { h: 8, w: 8, cutoff: 2.0, temperature: 77.25, ..small_params() }, 4);
    let all = list_params(sim.params());
    let object: serde_json::Map<String, serde_json::Value> = all.iter().map(|(k, v)| (k.clone(), value_of(v))).collect();
    let text = serde_json::Value::Object(object).to_string();
    sim.set_temperature(1.0);
    assert!(load_params(&mut sim, &text, &as_number));
    assert_eq!(sim.params().temperature, 77.25);
}

#[test]
fn found_entries_are_loaded() {
    let p = Double::new();
    let mut sim = blank(&p, Params { h: 8, w: 8, cutoff: 2.0, ..small_params() }, 4);
    let entry = |k: &str, flag: Option<bool>, number: Option<&str>| (k.to_string(), flag, number.map(|s| s.to_string()));
    assert!(load_entries(&mut sim, &vec![entry("temperature", None, Some("4")), entry("periodic", Some(false), None)], &as_number));
    assert_eq!(sim.params().temperature, 4.0);
    assert!(!load_entries(&mut sim, &vec![entry("temperature", None, Some("x"))], &as_number));
    assert!(!load_entries(&mut sim, &vec![entry("temperature", Some(true), None)], &as_number));
    assert_eq!(sim.params().temperature, 4.0);
}

#[test]
fn iterations_that_can_be_counted() {
    let p = Double::new();
    let mut sim = blank(&p, Params { h: 8, w: 8, cutoff: 2.0, ..small_params() }, 4);
    assert!(sim.can_count(u64::MAX));
    sim.step_many(&p, 3);
    assert!(!sim.can_count(u64::MAX - 2));
    assert!(sim.can_count(u64::MAX - 3));
}

#[test]
fn terms_of_the_formulas() {
    let p = Double::new();
    assert!(solid(&p, 0.51) && !solid(&p, 0.5));
    assert_eq!((unit_sign(&p, 3.0), unit_sign(&p, 0.0), unit_sign(&p, -0.25)), (1.0, 1.0, -1.0));
    assert_eq!((snap(&p, 1e-10), snap(&p, -1e-10), snap(&p, 1e-9), snap(&p, -2.0)), (0.0, 0.0, 1e-9, -2.0));
    assert_eq!((clamp_unit(&p, -0.5), clamp_unit(&p, 0.25), clamp_unit(&p, 7.0)), (0.0, 0.25, 1.0));
    assert!(clamp_unit(&p, f64::NAN).is_nan());
    assert_eq!((reach(&p, 2.5), reach(&p, 3.0), reach(&p, 0.2), reach(&p, -4.0), reach(&p, f64::NAN)), (3, 3, 1, 1, 1));
    assert!(beyond(&p, 26, 5.0) && !beyond(&p, 25, 5.0));
    assert_eq!(over_distance(&p, 3.0, 4), 1.5);
    assert_eq!(decay(&p, 9, 2.0), (-1.5f64).exp());
    assert_eq!(cosine_fall(&p, 2.0, 2.0, 4.0), 1.0);
    assert!((cosine_fall(&p, 3.0, 2.0, 4.0) - 0.5).abs() < 1e-12);
    assert!(cosine_fall(&p, 4.0, 2.0, 4.0).abs() < 1e-12);
}

#[test]
fn strokes_paint_near_their_points() {
    let p = Double::new();
    let mut sim = blank(&p, Params { h: 32, w: 32, cutoff: 3.0, ..small_params() }, 0);
    let brush = Brush { thickness: 3.0, coupling: 3.0, penetrability: 0.0, ..plain_brush() };
    let _ = sim.paint_stroke(&p, &vec![[9.25, 20.0], [14.0, 17.5], [11.0, 18.0]], &brush, true).unwrap();
    let near = |y: usize, x: usize| (9 - 3..=14 + 3).contains(&y) && (17 - 3..=20 + 3).contains(&x);
    let mut painted = 0;
    for y in 0..32 {
        for x in 0..32 {
            let c = y * 32 + x;
            if sim.paint[c] != 0.0 || sim.blocked()[c] {
                assert!(near(y, x), "{y} {x}");
                painted += 1;
            }
        }
    }
    assert!(painted > 20);
}

#[test]
fn all_parts_of_a_stroke_are_taken_back_after_annealing() {
    let p = Double::new();
    let mut sim = blank(&p, Params { h: 24, w: 24, cutoff: 4.0, ..small_params() }, 30);
    let brush = Brush { thickness: 3.0, coupling: 5.0, penetrability: 0.4, ..plain_brush() };
    let _ = sim.paint_stroke(&p, &vec![[4.0, 4.0], [5.0, 9.0]], &brush, true).unwrap();
    let (u0, closed0, records0) = (sim.u_edge().clone(), sim.blocked().clone(), sim.strokes.len());
    let path = [[10.0, 10.0], [12.0, 14.0], [9.0, 16.5], [8.0, 8.0], [10.0, 10.0]];
    for k in 0..4 {
        let _ = sim.paint_stroke(&p, &vec![path[k], path[k + 1]], &brush, k == 0).unwrap();
        sim.step_many(&p, 25);
    }
    assert!(sim.blocked() != &closed0 && !all_close(sim.u_edge(), &u0, 1e-3));
    let gas = sim.occupancy().clone();
    assert!(sim.undo_stroke(&p));
    assert!(all_close(sim.u_edge(), &u0, 1e-9));
    assert_eq!((sim.blocked(), sim.strokes.len()), (&closed0, records0));
    assert_eq!(sim.occupancy(), &gas);
    assert_eq!(sim.stats().energy, sim.total_energy(&p));
}

#[test]
fn blank_canvases_agree_on_host_and_device() {
    let p = Double::new();
    let params = Params { h: 20, w: 24, cutoff: 5.0, ..defaults() };
    for n in [0, 1, 37, 480, 1000] {
        let host = blank(&p, params, n);
        let (sim, up) = GpuSim::new_blank(&p, params, n).unwrap();
        assert_eq!(&up.occ, host.occupancy());
        assert_eq!(sim.stats().particles, host.stats().particles);
        assert_eq!(sim.stats().particles, n.min(480));
        assert!((sim.energy() - host.stats().energy).abs() <= 1e-9 + 1e-6 * host.stats().energy.abs());
    }
}

#[test]
fn positive_paint_repels_positive_particles() {
    let p = Double::new();
    let brush = Brush { sign: 1.0, thickness: 3.0, coupling: 5.0, ..plain_brush() };
    let mut sim = blank(&p, Params { h: 16, w: 16, cutoff: 3.0, ..small_params() }, 40);
    let report = sim.paint_stroke(&p, &vec![[6.0, 6.0], [8.5, 9.0]], &brush, true).unwrap();
    assert!(report.charge > 0.0 && report.de_field > 0.0);
}

use coulomb::adapter::{choose_backend, pick_adapter, BackendChoice, Candidate, DeviceKind, GpuError};
use coulomb::duration::{parse_duration, parse_whole, render_window, Span};
use coulomb::lattice::{grid, wrap};
use coulomb::patch::{lay, patch_index, slice_patch};
use coulomb::proposal::{draw_moves, pick_batch};
use coulomb::scene::strided_occupancy;
use coulomb::shader::{check_entry_points, check_shader, ShaderError};
use coulomb::stream::Stream;
use coulomb::surface::{first_liked, on_frame, FrameAction, FramePlan, FrameStatus, SurfaceState};
use coulomb::tiling::{choose_tile_edge, tiles_for_colour};
use coulomb::words::{bytes_to_words, decode_flags, encode_flags, words_to_bytes};

fn candidate(name: &str, kind: DeviceKind) -> Candidate {
    Candidate { name: name.to_string(), kind }
}

fn text(s: &str) -> Option<String> {
    Some(s.to_string())
}

// Adapters.

#[test]
fn backends_are_chosen_by_name() {
    assert_eq!(choose_backend(&text("vulkan")), BackendChoice::Vulkan);
    assert_eq!(choose_backend(&text("metal")), BackendChoice::Metal);
    assert_eq!(choose_backend(&text("dx12")), BackendChoice::Dx12);
    assert_eq!(choose_backend(&text("gl")), BackendChoice::Gl);
    assert_eq!(choose_backend(&text("Vulkan")), BackendChoice::Any);
    assert_eq!(choose_backend(&None), BackendChoice::Any);
}

#[test]
fn discrete_adapters_come_first() {
    let found = vec![
        candidate("other", DeviceKind::Other),
        candidate("llvmpipe", DeviceKind::Cpu),
        candidate("virtual", DeviceKind::VirtualGpu),
        candidate("one", DeviceKind::DiscreteGpu),
        candidate("two", DeviceKind::DiscreteGpu),
        candidate("board", DeviceKind::IntegratedGpu),
    ];
    assert!(matches!(pick_adapter(&found, &None), Ok(3)));
    assert!(matches!(pick_adapter(&found[..3].iter().map(|c| candidate(&c.name, c.kind)).collect(), &None), Ok(2)));
}

#[test]
fn adapters_are_found_by_a_part_of_their_name_in_any_case() {
    let found = vec![
        candidate("NVIDIA card", DeviceKind::DiscreteGpu),
        candidate("LLVMpipe (soft)", DeviceKind::Cpu),
    ];
    assert!(matches!(pick_adapter(&found, &text("llvmPIPE")), Ok(1)));
    assert!(matches!(pick_adapter(&found, &text("")), Ok(0)));
    assert!(matches!(pick_adapter(&found, &text("radeon")), Err(GpuError::AdapterNotFound)));
    assert!(matches!(pick_adapter(&vec![], &None), Err(GpuError::AdapterNotFound)));
}

// Words.

#[test]
fn words_go_to_bytes_and_back() {
    let words = vec![1u32, 0x0102_0304, u32::MAX];
    let bytes = words_to_bytes(&words);
    let mut want: Vec<u8> = vec![];
    for w in &words {
        want.extend_from_slice(&w.to_ne_bytes());
    }
    assert_eq!(bytes, want);
    assert_eq!(bytes_to_words(&bytes), words);
}

#[test]
fn flags_survive_the_device() {
    let occ = vec![true, false, false, true, true];
    assert_eq!(encode_flags(&occ), words_to_bytes(&vec![1, 0, 0, 1, 1]));
    assert_eq!(decode_flags(&encode_flags(&occ)), occ);
    assert_eq!(decode_flags(&words_to_bytes(&vec![0, 7, 256])), vec![false, true, true]);
}

// Tiles.

#[test]
fn tiles_outreach_the_cutoff() {
    assert_eq!(choose_tile_edge(1), 16);
    assert_eq!(choose_tile_edge(15), 16);
    assert_eq!(choose_tile_edge(16), 17);
    assert_eq!(choose_tile_edge(40), 41);
}

#[test]
fn tiles_of_each_colour() {
    let (ys, xs) = tiles_for_colour(40, 20, false, 16, 100, 0, 3, 0);
    assert_eq!(ys, vec![-13, 19]);
    assert_eq!(xs, vec![16, 16]);
    let (ys, xs) = tiles_for_colour(40, 20, false, 16, 100, 3, 3, 0);
    assert_eq!(ys, vec![3, 35]);
    assert_eq!(xs, vec![0, 0]);
    let (ys, xs) = tiles_for_colour(64, 32, true, 16, 100, 1, 60, 5);
    assert_eq!(ys, vec![12, 44]);
    assert_eq!(xs, vec![5, 5]);
    let (ys, _) = tiles_for_colour(31, 32, true, 16, 100, 1, 3, 5);
    assert!(ys.is_empty());
    let (ys, xs) = tiles_for_colour(400, 400, false, 16, 5, 0, 3, 5);
    assert_eq!((ys.len(), xs.len()), (5, 5));
}

#[test]
fn tiles_share_out_the_lattice() {
    let (h, w, edge) = (45usize, 37usize, 16u32);
    for (oy, ox) in [(0, 0), (7, 15), (15, 1)] {
        let mut times = vec![0; h * w];
        for colour in 0..4 {
            let (ys, xs) = tiles_for_colour(h, w, false, edge, 1000, colour, oy, ox);
            for (&y, &x) in ys.iter().zip(xs.iter()) {
                for ty in y..y + edge as i32 {
                    for tx in x..x + edge as i32 {
                        if 0 <= ty && ty < h as i32 && 0 <= tx && tx < w as i32 {
                            times[ty as usize * w + tx as usize] += 1;
                        }
                    }
                }
            }
        }
        assert!(times.iter().all(|&n| n == 1));
    }
}

// The lattice.

#[test]
fn coordinates_wrap() {
    assert_eq!(wrap(-1, 5), 4);
    assert_eq!(wrap(-10, 5), 0);
    assert_eq!(wrap(12, 5), 2);
    assert_eq!(grid(2, 3, &|y: usize, x: usize| 10 * y + x), vec![0, 1, 2, 10, 11, 12]);
}

#[test]
fn particles_are_strided() {
    let at = |total: usize, take: usize| -> Vec<usize> {
        let occ = strided_occupancy(total, take);
        (0..total).filter(|&i| occ[i]).collect()
    };
    assert_eq!(at(10, 3), vec![0, 3, 6]);
    assert_eq!(at(10, 4), vec![0, 2, 5, 7]);
    assert_eq!(at(4, 4), vec![0, 1, 2, 3]);
    assert!(at(4, 0).is_empty());
}

// Patches.

#[test]
fn patches_are_cut_at_walls() {
    let place = patch_index(-2, 3, 4, 4, 5, 6, false).unwrap();
    assert_eq!(place.rows, vec![0, 1]);
    assert_eq!(place.cols, vec![3, 4, 5]);
    assert_eq!((place.sy, place.sy_end, place.sx, place.sx_end), (2, 4, 0, 3));
    let src: Vec<u32> = (0..16).collect();
    assert_eq!(slice_patch(&src, 4, 4, &place), vec![8, 9, 10, 12, 13, 14]);
    assert!(patch_index(5, 0, 2, 2, 5, 6, false).is_none());
    assert!(patch_index(-2, 0, 2, 2, 5, 6, false).is_none());
}

#[test]
fn patches_come_round_a_torus() {
    let place = patch_index(-2, 5, 3, 2, 5, 6, true).unwrap();
    assert_eq!(place.rows, vec![3, 4, 0]);
    assert_eq!(place.cols, vec![5, 0]);
    assert_eq!((place.sy, place.sy_end, place.sx, place.sx_end), (0, 3, 0, 2));
    assert!(patch_index(0, 0, 6, 2, 5, 6, true).is_none());
    assert!(patch_index(0, 0, 2, 7, 5, 6, true).is_none());
    let laid = lay(&vec![1, 2, 3, 4, 5, 6], -2, 5, 3, 2, 5, 6, true).unwrap();
    assert_eq!((laid.rows, laid.cols, laid.cells), (vec![3, 4, 0], vec![5, 0], vec![1, 2, 3, 4, 5, 6]));
}

// Proposals.

#[test]
fn batches_hold_no_particle_twice() {
    let mut stream = Stream::new(11);
    for n in 1..20usize {
        let mut idx = pick_batch(n, n, &mut stream);
        idx.sort();
        assert_eq!(idx, (0..n).collect::<Vec<usize>>());
    }
}

#[test]
fn moves_are_legal() {
    let occ: Vec<bool> = (0..36).map(|i| i % 2 == 0).collect();
    let mut blocked = vec![false; 36];
    blocked[7] = true;
    blocked[9] = true;
    let pos: Vec<(i32, i32)> = (0..36).filter(|i| i % 2 == 0).map(|i| (i / 6, i % 6)).collect();
    let mut stream = Stream::new(5);
    let mut some = 0;
    for periodic in [false, true] {
        for _ in 0..100 {
            let moves = draw_moves(6, 6, periodic, 2, &occ, &blocked, &pos, 6, &mut stream);
            let mut next = occ.clone();
            for &(y, x) in &moves.old {
                assert!(next[(y * 6 + x) as usize]);
                next[(y * 6 + x) as usize] = false;
            }
            for &(y, x) in &moves.new {
                assert!(0 <= y && y < 6 && 0 <= x && x < 6);
                assert!(!blocked[(y * 6 + x) as usize]);
                assert!(!next[(y * 6 + x) as usize]);
                next[(y * 6 + x) as usize] = true;
            }
            some += moves.idx.len();
        }
    }
    assert!(some > 0);
}

// Durations.

fn seconds(v: &str) -> Option<u64> {
    Some((v.parse::<f64>().ok()? * 1000.0) as u64)
}

#[test]
fn durations_in_each_unit() {
    assert_eq!(parse_duration("2500ms", &seconds), Some(Span { secs: 2, millis: 500 }));
    assert_eq!(parse_duration("5s", &seconds), Some(Span { secs: 5, millis: 0 }));
    assert_eq!(parse_duration("0.25s", &seconds), Some(Span { secs: 0, millis: 250 }));
    assert_eq!(parse_duration("2m", &seconds), Some(Span { secs: 120, millis: 0 }));
    assert_eq!(parse_duration("2h", &seconds), None);
    assert_eq!(parse_duration("", &seconds), None);
    assert_eq!(parse_duration("xs", &seconds), None);
    assert_eq!(parse_duration("1.5m", &seconds), None);
    assert_eq!(parse_duration("ms", &seconds), None);
}

#[test]
fn whole_numbers() {
    assert_eq!(parse_whole("0"), Some(0));
    assert_eq!(parse_whole("007"), Some(7));
    assert_eq!(parse_whole("+12"), "+12".parse().ok());
    assert_eq!(parse_whole("+"), None);
    assert_eq!(parse_whole("-1"), None);
    assert_eq!(parse_whole(""), None);
    assert_eq!(parse_whole("18446744073709551615"), Some(u64::MAX));
    assert_eq!(parse_whole("18446744073709551616"), None);
    assert_eq!(parse_whole("12a"), None);
}

// Shaders.

const SHADER: &str = "
@group(0) @binding(0) var<storage, read_write> cells: array<u32>;

@compute @workgroup_size(1)
fn sweep(@builtin(global_invocation_id) id: vec3<u32>) {
    cells[id.x] = 1u;
}
";

fn names(all: &[&str]) -> Vec<String> {
    all.iter().map(|s| s.to_string()).collect()
}

#[test]
fn sound_shader_passes() {
    assert!(check_shader(SHADER, &names(&["sweep"])).is_ok());
}

#[test]
fn shader_with_other_entry_points() {
    match check_shader(SHADER, &names(&["paint"])) {
        Err(ShaderError::Unexpected(name)) => assert_eq!(name, "sweep"),
        other => panic!("{:?}", other),
    }
    match check_shader(SHADER, &names(&["sweep", "paint"])) {
        Err(ShaderError::Missing(name)) => assert_eq!(name, "paint"),
        other => panic!("{:?}", other),
    }
    assert!(check_entry_points(&names(&["a", "b"]), &names(&["b", "a"])).is_ok());
}

#[test]
fn intricate_shaders_are_not_read() {
    let intricate = |text: &str| matches!(check_shader(text, &names(&["sweep"])), Err(ShaderError::Intricate));
    let deep = format!("const a = {}1{};", "(".repeat(5000), ")".repeat(5000));
    assert!(intricate(&deep));
    assert!(intricate(&format!("const a = {}1;", "-".repeat(5000))));
    assert!(intricate(&format!("const a = 1{};", " + 1".repeat(5000))));
    assert!(intricate(&format!("const a = {}1{};", "max(1, ".repeat(20), ")".repeat(20))));
    assert!(intricate(&format!("fn f() {}{}", "{".repeat(500), "}".repeat(500))));
    assert!(intricate(&format!("fn f() {{ if true {{}} {} }}", "else if true {} ".repeat(70))));
    assert!(intricate(&"fn f() {} ".repeat(1001)));
    assert!(intricate("struct S { @size(4294967280) a: u32, b: u32 }"));
    assert!(intricate("var<private> a: array<u32, 2147483648>;"));
    assert!(intricate("const N = 2147483648u; var<private> a: array<u32, N>;"));
    assert!(intricate("var<private> a: array<u32, 0x7fffffff>;"));
    assert!(intricate("var<private> a: array<u32, 7 * 9999>;"));
    assert!(intricate("var<private> a: array<array<u32, 65536>, 65536>;"));
    assert!(intricate("struct A { a: array<u32, 65536> } var<private> b: array<A, 65536>;"));
    assert!(intricate("alias T = array<S, 65536>; struct S { x: array<f32, 99999> }"));
    assert!(intricate("var<private> a: binding_array<u32, 4>;"));
    let doubles: String = (1..40).map(|i| format!("struct S{i} {{ a: S{}, b: S{} }} ", i - 1, i - 1)).collect();
    assert!(intricate(&format!("struct S0 {{ a: vec4<f32> }} {doubles}")));
    let arrays: String = (1..40).map(|i| format!("let x{i} = array(x{}, x{}); ", i - 1, i - 1)).collect();
    assert!(intricate(&format!("fn f() {{ let x0 = 1u; {arrays} }}")));
    assert!(intricate(&" ".repeat(270_000)));
}

fn in_a_sweep(body: &str) -> String {
    format!(
        "@group(0) @binding(0) var<storage, read_write> a: array<u32>;
        fn g(x: u32) -> u32 {{ return x; }}
        @compute @workgroup_size(1) fn sweep() {{ {body} }}"
    )
}

fn is_read(body: &str) {
    let r = check_shader(&in_a_sweep(body), &names(&["sweep"]));
    assert!(r.is_ok(), "{r:?}");
}

#[test]
fn blocks_nest_as_deep_as_they_are_read() {
    is_read(&format!("{} a[1] = 1u; {}", "for (var i = 0u; i < a[2]; i++) { ".repeat(27), "}".repeat(27)));
    is_read(&format!("{} a[1] = 1u; {}", "switch a[2] { default: { ".repeat(13), "} }".repeat(13)));
    is_read(&format!("{} a[1] = 1u; {}", "if a[2] == 1u { ".repeat(27), "}".repeat(27)));
}

#[test]
fn brackets_nest_as_deep_as_they_are_read() {
    is_read(&format!("a[0] = {}a[1]{};", "(".repeat(53), ")".repeat(53)));
    is_read(&format!("a[0] = {}0{};", "a[".repeat(54), "]".repeat(54)));
}

#[test]
fn operators_chain_as_far_as_they_are_read() {
    is_read(&format!("a[0] = {}a[1];", "~".repeat(53)));
    is_read(&format!("a[0] = a[1]{};", " + a[2]".repeat(26)));
    is_read(&format!("var x = 1u; x = x{};", " + x".repeat(55)));
}

#[test]
fn calls_nest_as_deep_as_they_are_read() {
    is_read(&format!("a[0] = {}a[1]{};", "g(".repeat(16), ")".repeat(16)));
    is_read(&format!("a[0] = {}a[1]{};", "max(1u, ".repeat(16), ")".repeat(16)));
    is_read(&format!("a[0] = {}a[1]{};", "select(1u, 2u, (a[2] == ".repeat(7), "))".repeat(7)));
    is_read(&format!(
        "{} a[0] = {}a[1]{}; {}",
        "for (var i = 0u; i < a[2]; i++) { ".repeat(12),
        "g(".repeat(8),
        ")".repeat(8),
        "}".repeat(12)
    ));
}

#[test]
fn branches_follow_as_many_as_they_are_read() {
    let chain = format!("if a[0] == 0u {{ a[1] = 1u; }} {}", "else if a[0] == 2u { a[1] = g(g(2u)); } ".repeat(45));
    is_read(&chain);
    is_read(&chain.repeat(20));
}

#[test]
fn declarations_are_read_that_hang_together() {
    let all: String = (1..990).map(|i| format!("fn fn_{}() -> u32 {{ return fn_{i}(); }}\n", i - 1)).collect();
    let text = format!("{all} fn fn_989() -> u32 {{ return 1u; }} @compute @workgroup_size(1) fn sweep() {{ let x = fn_0(); }}");
    let r = check_shader(&text, &names(&["sweep"]));
    assert!(r.is_ok(), "{r:?}");
}

#[test]
fn types_are_read_that_are_put_together() {
    let text = "
        alias Site = vec2<i32>;
        struct Inner { at: Site, weight: mat3x2<f32>, few: array<vec4<f32>, 4> }
        struct Outer { one: Inner, two: Inner, rest: array<Inner, 3> }
        @group(0) @binding(0) var<storage, read_write> cells: array<Outer>;
        @group(0) @binding(1) var<storage, read_write> rows: array<array<u32, 4>>;
        var<private> grid: array<array<f32, 8>, 8>;
        @compute @workgroup_size(64)
        fn sweep(@builtin(global_invocation_id) id: vec3<u32>) {
            let p = array(1u, 2u, 3u);
            let q = array<vec2<f32>, 6>(vec2<f32>(-1.0, -1.0), vec2<f32>(1.0, -1.0), vec2<f32>(-1.0, 1.0),
                vec2<f32>(-1.0, 1.0), vec2<f32>(1.0, -1.0), vec2<f32>(1.0, 1.0));
            grid[id.x % 8u][id.y % 8u] = q[1].x + f32(p[0]) + cells[id.x].rest[1].weight[0].x;
            rows[0][1] = rows[1][0];
        }
    ";
    let r = check_shader(text, &names(&["sweep"]));
    assert!(r.is_ok(), "{r:?}");
}

#[test]
fn plain_shaders_are_read() {
    let text = "
        // A comment with ((((( and { and /* in it.
        /* Another /* in */ it: array<u32, 99999999> */
        const N: u32 = 256u;
        struct Params { h: u32, w: u32, @size(16) q: f32, at: vec2<f32>, few: array<vec4<f32>, 4> }
        @group(0) @binding(0) var<uniform> p: Params;
        @group(0) @binding(1) var<storage, read_write> cells: array<u32>;
        var<workgroup> tile: array<vec2<u32>, N>;
        fn hash(x: u32) -> u32 {
            var h = x * 747796405u + 2891336453u;
            if h > 5u { h = h / 3u; } else if h < 2u { h = h << 4u; } else { h = ~h; }
            return h;
        }
        @compute @workgroup_size(64)
        fn sweep(@builtin(global_invocation_id) id: vec3<u32>) {
            if id.x < p.h * p.w {
                cells[id.x] = hash(cells[id.x] ^ tile[0].x);
            }
        }
    ";
    let r = check_shader(text, &names(&["sweep"]));
    assert!(r.is_ok(), "{r:?}");
}

#[test]
fn names_beyond_ascii_are_not_read() {
    let text = "const \u{e9} = 1u; fn f(x: i32) { switch x { case \u{e9}: {} default: {} } }";
    assert!(matches!(check_shader(text, &names(&["f"])), Err(ShaderError::Intricate)));
    let plain = "const e = 1u; fn f(x: i32) { switch x { case e: {} default: {} } }";
    assert!(matches!(check_shader(plain, &names(&["f"])), Err(ShaderError::Parse(_))));
    let commented = "/* \u{e9} */ @compute @workgroup_size(1) fn f() {} // \u{3b1}\u{3b2}";
    assert!(check_shader(commented, &names(&["f"])).is_ok());
    let wrong = "/* \u{e9}\u{e9} */ fn f() { let x = ; } // \u{3b1}\u{3b2}";
    assert!(matches!(check_shader(wrong, &names(&["f"])), Err(ShaderError::Parse(_))));
}

#[test]
fn shader_that_does_not_parse() {
    assert!(matches!(check_shader("fn sweep( {", &names(&["sweep"])), Err(ShaderError::Parse(_))));
}

#[test]
fn shader_that_is_not_valid() {
    let twice = "
@group(0) @binding(0) var<uniform> a: u32;
@group(0) @binding(0) var<uniform> b: u32;

@compute @workgroup_size(1)
fn sweep() {
    let c = a + b;
}
";
    assert!(matches!(check_shader(twice, &names(&["sweep"])), Err(ShaderError::Invalid(_))));
}

// Surfaces.

#[test]
fn surface_keeps_a_size_that_shows() {
    let mut s = SurfaceState::new(0, -5);
    assert_eq!((s.width, s.height, s.occ_capacity, s.lattice_w, s.lattice_h), (1, 1, 1, 1, 1));
    assert!(!s.resize(0, 7));
    assert!(!s.resize(7, 0));
    assert!(!s.resize(1, 1));
    assert!(s.resize(7, 9));
    assert_eq!((s.width, s.height), (7, 9));
}

#[test]
fn frames_are_planned() {
    let mut s = SurfaceState::new(10, 10);
    assert_eq!(s.plan_frame(0, 5, 0), FramePlan::Skip);
    assert_eq!(s.plan_frame(4, 3, 12), FramePlan::Draw { grow: Some(48), rewrite: true, byte_len: 48 });
    assert_eq!(s.plan_frame(4, 3, 20), FramePlan::Draw { grow: None, rewrite: false, byte_len: 48 });
    assert_eq!(s.plan_frame(3, 4, 12), FramePlan::Draw { grow: None, rewrite: true, byte_len: 48 });
    assert_eq!(s.plan_frame(2, 2, 4), FramePlan::Draw { grow: None, rewrite: true, byte_len: 16 });
    assert_eq!(s.occ_capacity, 12);
}

#[test]
fn frames_that_fail() {
    assert_eq!(on_frame(FrameStatus::Ready), FrameAction::Present);
    assert_eq!(on_frame(FrameStatus::Outdated), FrameAction::Reconfigure);
    assert_eq!(on_frame(FrameStatus::Lost), FrameAction::Reconfigure);
    assert_eq!(on_frame(FrameStatus::Failed), FrameAction::Drop);
    assert_eq!(first_liked(&vec![false, true, true]), 1);
    assert_eq!(first_liked(&vec![false, false]), 0);
}

#[test]
fn words_are_kept_as_the_machine_keeps_them() {
    let words = vec![0x0102_0304, 7, u32::MAX, 0x8000_0001];
    let bytes: Vec<u8> = words.iter().flat_map(|w: &u32| w.to_ne_bytes()).collect();
    assert_eq!(words_to_bytes(&words), bytes);
    assert_eq!(bytes_to_words(&bytes), words);
    assert_eq!(encode_flags(&vec![true, false]), [1u32.to_ne_bytes(), 0u32.to_ne_bytes()].concat());
}

#[test]
fn frames_are_drawn_for_a_quarter_of_the_run() {
    assert_eq!(render_window(0), 500);
    assert_eq!(render_window(2003), 500);
    assert_eq!(render_window(2004), 501);
    assert_eq!(render_window(u64::MAX), u64::MAX / 4);
}

use geodesic_wallpaper::config::{
    color_bytes, default_background_color, default_color_cycle_enabled, default_color_palette, default_gradient_mode,
    default_num_geodesics, default_surface, default_trail_length, default_trail_mode,
};
use geodesic_wallpaper::escher::{EscherGenerator, TessellationType};
use geodesic_wallpaper::events::KeyEvent;
use geodesic_wallpaper::flow_field_render::hash;
use geodesic_wallpaper::hyperbolic_tiling::HyperbolicTiling;
use geodesic_wallpaper::preview::{next_symmetry_group, position_of_group, prev_symmetry_group};
use geodesic_wallpaper::spirograph::{gcd_u64, lcm_u64};
use geodesic_wallpaper::topology_art::TopologyRenderer;

#[test]
fn gcd_and_lcm() {
    assert_eq!(gcd_u64(12, 18), 6);
    assert_eq!(gcd_u64(7, 0), 7);
    assert_eq!(gcd_u64(0, 0), 0);
    assert_eq!(lcm_u64(4, 6), 12);
    assert_eq!(lcm_u64(0, 6), 0);
    assert_eq!(lcm_u64(5, 0), 0);
}

#[test]
fn defaults() {
    assert_eq!(default_surface(), "torus");
    assert_eq!(default_num_geodesics(), 30);
    assert_eq!(default_trail_length(), 300);
    assert_eq!(default_color_palette(), vec!["#4488FF", "#88DDFF", "#FFD700", "#88FF88", "#FF88CC"]);
    assert_eq!(default_background_color(), "#050510");
    assert_eq!(default_trail_mode(), "line");
    assert_eq!(default_gradient_mode(), "none");
    assert!(!default_color_cycle_enabled());
}

#[test]
fn color_bytes_parses_hex() {
    assert_eq!(color_bytes("#FF8800"), [255, 136, 0]);
    assert_eq!(color_bytes("4488FF"), color_bytes("#4488FF"));
    assert_eq!(color_bytes("##4488ff"), [0x44, 0x88, 0xff]);
}

#[test]
fn color_bytes_falls_back_to_128() {
    assert_eq!(color_bytes("#ZZZZZZ"), [128, 128, 128]);
    assert_eq!(color_bytes("#12"), [0x12, 128, 128]);
    assert_eq!(color_bytes("+F+F+F"), [15, 15, 15]);
    assert_eq!(color_bytes("é00"), [128, 0, 128]);
    assert_eq!(color_bytes("é0000"), [128, 0, 0]);
}

#[test]
fn symmetry_groups_cycle() {
    assert_eq!(next_symmetry_group("p4g"), "p6m");
    assert_eq!(next_symmetry_group("p6m"), "p1");
    assert_eq!(prev_symmetry_group("p1"), "p6m");
    assert_eq!(prev_symmetry_group("pm"), "p2");
    assert_eq!(next_symmetry_group("nope"), "p1");
    assert_eq!(prev_symmetry_group("nope"), "p1");
    assert_eq!(position_of_group("cm"), Some(4));
    assert_eq!(position_of_group("p4"), Some(5));
    assert_eq!(position_of_group("P4"), None);
}

#[test]
fn value_noise_hash_mixes_signs() {
    let a = hash(1, 2, 3);
    let b = hash(-1, 2, 3);
    assert_ne!(a, b);
    let mut h: u64 = 3 ^ 2654435761 ^ (2 * 2246822519);
    h = h.wrapping_mul(6364136223846793005).wrapping_add(1442695040888963407);
    assert_eq!(a, h);
}

#[test]
fn small_types() {
    let t = HyperbolicTiling::new(7, 3);
    assert_eq!((t.p, t.q), (7, 3));
    let r = TopologyRenderer::new(640, 480);
    assert_eq!((r.width, r.height), (640, 480));
    let _g = EscherGenerator::new();
    assert_ne!(TessellationType::SymmetryGroup(3), TessellationType::FishPattern);
    assert_eq!(KeyEvent::GalleryNext, KeyEvent::GalleryNext);
}

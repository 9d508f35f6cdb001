use geodesic_wallpaper::flow_field::{bresenham as plot_line, LcgRng};
use geodesic_wallpaper::iso_surface::{bresenham as iso_line, cell_case, contour_edges, draw_ascii, draw_contours};
use geodesic_wallpaper::line::walk_line;
use geodesic_wallpaper::mesh::{bresenham as mesh_line, draw_wireframe, icosahedron_triangles, subdivide_topology, Triangle};

#[test]
fn walk_line_diagonal_and_steep() {
    assert_eq!(walk_line(0, 0, 3, 3, false), vec![(0, 0), (1, 1), (2, 2), (3, 3)]);
    assert_eq!(walk_line(0, 0, 1, 3, false), vec![(0, 0), (0, 1), (1, 2), (1, 3)]);
    assert_eq!(walk_line(2, 2, 2, 2, false), vec![(2, 2)]);
}

#[test]
fn walk_line_backwards() {
    assert_eq!(walk_line(3, 0, 0, 0, false), vec![(3, 0), (2, 0), (1, 0), (0, 0)]);
    assert_eq!(walk_line(0, 2, 0, 0, true), vec![(0, 2), (0, 1), (0, 0)]);
}

#[test]
fn strict_variant_differs_on_ties() {
    // Ties in the error term go the other way in the strict variant.
    let loose = walk_line(0, 0, 2, 1, false);
    let strict = walk_line(0, 0, 2, 1, true);
    assert_eq!(loose, vec![(0, 0), (1, 1), (2, 1)]);
    assert_eq!(strict, vec![(0, 0), (1, 0), (2, 1)]);
}

#[test]
fn line_variants_agree() {
    let a = iso_line(-2, 5, 7, -1);
    let b = mesh_line(-2, 5, 7, -1);
    let c = walk_line(-2, 5, 7, -1, false);
    assert_eq!(a.len(), c.len());
    for i in 0..c.len() {
        assert_eq!((a[i].0 as i64, a[i].1 as i64), c[i]);
        assert_eq!((b[i].0 as i64, b[i].1 as i64), c[i]);
    }
    assert_eq!(c[0], (-2, 5));
    assert_eq!(*c.last().unwrap(), (7, -1));
}

#[test]
fn plot_line_paints_inside_only() {
    let mut px = vec![0u8; 3 * 2 * 3];
    plot_line(-1, 0, 2, 0, 3, 2, &mut px, (5, 6, 7));
    assert_eq!(px, vec![5, 6, 7, 5, 6, 7, 5, 6, 7, 0, 0, 0, 0, 0, 0, 0, 0, 0]);
}

#[test]
fn lcg_sequence() {
    let mut rng = LcgRng::new(0);
    assert_eq!(rng.state, 1);
    let v = rng.next_u64();
    assert_eq!(v, 6_364_136_223_846_793_005u64.wrapping_add(1_442_695_040_888_963_407));
    assert_eq!(rng.state, v);
}

#[test]
fn marching_squares_cases() {
    assert_eq!(cell_case(true, false, false, false), 1);
    assert_eq!(cell_case(true, true, true, true), 15);
    assert_eq!(contour_edges(1, false), vec![(0, 3)]);
    assert_eq!(contour_edges(0, true), vec![]);
    assert_eq!(contour_edges(15, true), vec![]);
    assert_eq!(contour_edges(5, true), vec![(0, 1), (2, 3)]);
    assert_eq!(contour_edges(5, false), vec![(0, 3), (1, 2)]);
    assert_eq!(contour_edges(10, true), vec![(0, 3), (1, 2)]);
}

#[test]
fn marching_squares_edges_match_crossings() {
    for case in 0u8..16 {
        let b = [case & 1 != 0, case & 2 != 0, case & 4 != 0, case & 8 != 0];
        assert_eq!(cell_case(b[0], b[1], b[2], b[3]), case);
        for &center in &[false, true] {
            let segs = contour_edges(case, center);
            for k in 0..4u8 {
                let uses = segs.iter().filter(|s| s.0 == k).count() + segs.iter().filter(|s| s.1 == k).count();
                let crossed = b[k as usize] != b[((k + 1) % 4) as usize];
                assert_eq!(uses, if crossed { 1 } else { 0 });
            }
        }
    }
}

#[test]
fn subdivision_of_one_triangle() {
    let (edges, tris) = subdivide_topology(3, &[Triangle { a: 0, b: 1, c: 2 }]);
    assert_eq!(edges, vec![(0, 1), (1, 2), (0, 2)]);
    assert_eq!(
        tris,
        vec![
            Triangle { a: 0, b: 3, c: 5 },
            Triangle { a: 1, b: 4, c: 3 },
            Triangle { a: 2, b: 5, c: 4 },
            Triangle { a: 3, b: 4, c: 5 },
        ]
    );
}

#[test]
fn subdivision_shares_edges() {
    let quad = [Triangle { a: 0, b: 1, c: 2 }, Triangle { a: 2, b: 1, c: 3 }];
    let (edges, tris) = subdivide_topology(4, &quad);
    assert_eq!(edges.len(), 5);
    assert_eq!(tris.len(), 8);
    assert_eq!(tris[4], Triangle { a: 2, b: 5, c: 8 });
    assert_eq!(edges[3], (1, 3));
}

#[test]
fn wireframe_draws_projected_edges_only() {
    let projected = [Some((0, 0)), Some((3, 0)), Some((0, 2)), None];
    let tris = [Triangle { a: 0, b: 1, c: 2 }, Triangle { a: 1, b: 3, c: 2 }];
    let buf = draw_wireframe(&projected, &tris, 4, 3, (9, 8, 7));
    assert_eq!(buf.len(), 4 * 3 * 3);
    let px = |x: usize, y: usize| &buf[(y * 4 + x) * 3..(y * 4 + x) * 3 + 3];
    for x in 0..4 {
        assert_eq!(px(x, 0), &[9, 8, 7]);
    }
    assert_eq!(px(0, 1), &[9, 8, 7]);
    assert_eq!(px(0, 2), &[9, 8, 7]);
    assert_eq!(px(3, 2), &[0, 0, 0]);
    assert_eq!(px(3, 1), &[0, 0, 0]);
    // Off-screen end points are clipped.
    let buf = draw_wireframe(&[Some((-2, 1)), Some((5, 1))], &[Triangle { a: 0, b: 1, c: 1 }], 4, 3, (1, 1, 1));
    assert_eq!(&buf[12..24], &[1u8; 12]);
    assert!(buf[..12].iter().all(|&b| b == 0));
}

#[test]
fn ascii_contours_use_slope_characters() {
    let g = draw_ascii(&[(0, 0, 3, 0), (1, 0, 1, 2), (-5, 5, 9, 5)], 4, 3);
    let rows: Vec<String> = g.iter().map(|r| r.iter().collect()).collect();
    assert_eq!(rows, vec!["-|--", ".|..", ".|.."]);
    // A diagonal counts as steep.
    let g = draw_ascii(&[(0, 0, 1, 1)], 2, 2);
    assert_eq!(g, vec![vec!['|', '.'], vec!['.', '|']]);
}

#[test]
fn contour_segments_take_their_colour() {
    let red = [255, 0, 0];
    let blue = [0, 0, 255];
    let bg = [20, 20, 20];
    let g = draw_contours(&[(0, 1, 2, 1, red), (2, 0, 2, 2, blue)], 3, 3, bg);
    assert_eq!(g[0], vec![bg, bg, blue]);
    assert_eq!(g[1], vec![red, red, blue]);
    assert_eq!(g[2], vec![bg, bg, blue]);
    assert!(draw_contours(&[], 0, 2, bg).iter().all(|r| r.is_empty()));
}

#[test]
fn icosahedron_faces_close_up() {
    let t = icosahedron_triangles();
    assert_eq!(t.len(), 20);
    assert_eq!(t[0], Triangle { a: 0, b: 11, c: 5 });
    assert_eq!(t[19], Triangle { a: 9, b: 8, c: 1 });
    for f in &t {
        assert!(f.a < 12 && f.b < 12 && f.c < 12);
        for (u, v) in [(f.a, f.b), (f.b, f.c), (f.c, f.a)] {
            let along = |g: &Triangle| (g.a == u && g.b == v) || (g.b == u && g.c == v) || (g.c == u && g.a == v);
            let back = |g: &Triangle| (g.a == v && g.b == u) || (g.b == v && g.c == u) || (g.c == v && g.a == u);
            assert_eq!(t.iter().filter(|g| along(g)).count(), 1);
            assert_eq!(t.iter().filter(|g| back(g)).count(), 1);
        }
    }
    // Twelve vertices, thirty edges, twenty faces: Euler characteristic 2.
    let (edges, _) = subdivide_topology(12, &t);
    assert_eq!(edges.len(), 30);
}

use geodesic_wallpaper::l_system::{rasterize_segments, LSystem};

#[test]
fn dragon_curve_expand_one_iteration() {
    let ls = LSystem::dragon_curve();
    let expanded = ls.expand(1);
    assert_eq!(expanded, "F+G");
}

#[test]
fn dragon_curve_expand_two_iterations() {
    let ls = LSystem::dragon_curve();
    let expanded = ls.expand(2);
    assert_eq!(expanded, "F+G+F-G");
}

#[test]
fn hilbert_curve_expands_without_panic() {
    let ls = LSystem::hilbert_curve();
    let s = ls.expand(4);
    assert!(!s.is_empty());
}

#[test]
fn expand_zero_is_the_seed() {
    let ls = LSystem::sierpinski_triangle();
    assert_eq!(ls.expand(0), "F-G-G");
}

#[test]
fn constants_pass_through() {
    let ls = LSystem::new("A[B]").rule('A', "AB");
    assert_eq!(ls.expand(2), "ABB[B]");
}

#[test]
fn later_rule_replaces_earlier() {
    let ls = LSystem::new("X").rule('X', "Y").rule('X', "ZZ");
    assert_eq!(ls.expand(1), "ZZ");
    assert_eq!(ls.rules.len(), 1);
    assert_eq!(ls.variables, vec!['X']);
}

#[test]
fn expansion_composes() {
    let ls = LSystem::plant();
    let two = ls.expand(2);
    let again = LSystem { seed: ls.expand(1), ..ls.clone() }.expand(1);
    assert_eq!(two, again);
    assert_eq!(ls.expand(1), "F+[[X]-X]-F[-FX]+X");
}

#[test]
fn rasterize_correct_buffer_size() {
    let buf = rasterize_segments(&[(0, 0, 10, 10)], 64, 64, (255, 0, 0));
    assert_eq!(buf.len(), 64 * 64 * 3);
}

#[test]
fn rasterize_draws_horizontal_line() {
    let buf = rasterize_segments(&[(1, 1, 3, 1)], 5, 3, (9, 8, 7));
    for x in 0..5 {
        let i = (1 * 5 + x) * 3;
        let lit = (1..=3).contains(&x);
        assert_eq!(&buf[i..i + 3], if lit { &[9u8, 8, 7][..] } else { &[0u8, 0, 0][..] });
    }
    assert!(buf[..15].iter().all(|&b| b == 0));
}

#[test]
fn rasterize_clips_outside_points() {
    let buf = rasterize_segments(&[(-3, 0, 1, 0)], 2, 1, (1, 1, 1));
    assert_eq!(buf, vec![1, 1, 1, 1, 1, 1]);
}

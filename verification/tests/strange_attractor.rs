use geodesic_wallpaper::strange_attractor::AttractorRenderer;

/// Maps points to the cells of a `width × height` grid over their
/// bounding box, as the renderer does.
fn cells_of(points: &[(f64, f64)], width: u32, height: u32) -> Vec<(usize, usize)> {
    let (min_x, max_x) = points.iter().fold((f64::MAX, f64::MIN), |(mn, mx), (x, _)| (mn.min(*x), mx.max(*x)));
    let (min_y, max_y) = points.iter().fold((f64::MAX, f64::MIN), |(mn, mx), (_, y)| (mn.min(*y), mx.max(*y)));
    let range_x = (max_x - min_x).max(1e-10);
    let range_y = (max_y - min_y).max(1e-10);
    points
        .iter()
        .map(|(px, py)| {
            let col = ((px - min_x) / range_x * (width - 1) as f64) as usize;
            let row = ((py - min_y) / range_y * (height - 1) as f64) as usize;
            (col.min(width as usize - 1), row.min(height as usize - 1))
        })
        .collect()
}

#[test]
fn ascii_portrait_non_empty() {
    let pts: Vec<(f64, f64)> = (0..50).map(|i| (i as f64, i as f64)).collect();
    let s = AttractorRenderer::ascii_portrait(&cells_of(&pts, 20, 10), 20, 10);
    assert!(!s.is_empty());
    assert!(s.contains('*'));
}

#[test]
fn ascii_portrait_layout() {
    let s = AttractorRenderer::ascii_portrait(&[(0, 0), (2, 1), (2, 1)], 3, 2);
    assert_eq!(s, "*  \n  *");
    assert_eq!(AttractorRenderer::ascii_portrait(&[], 3, 2), "");
    assert_eq!(AttractorRenderer::ascii_portrait(&[(0, 0)], 1, 1), "*");
}

#[test]
fn density_counts_hits() {
    let d = AttractorRenderer::density_counts(&[(0, 0), (1, 0), (1, 0), (1, 1)], 2, 2);
    assert_eq!(d, vec![vec![1, 2], vec![0, 1]]);
    assert_eq!(AttractorRenderer::peak_density(&d), 2);
    assert_eq!(AttractorRenderer::peak_density(&vec![vec![], vec![]]), 1);
    assert_eq!(AttractorRenderer::peak_density(&vec![vec![0, 0]]), 0);
}

#[test]
fn density_map_dimensions() {
    let pts: Vec<(f64, f64)> = (0..100).map(|i| (i as f64, (i as f64).sin())).collect();
    let grid = AttractorRenderer::density_counts(&cells_of(&pts, 16, 16), 16, 16);
    assert_eq!(grid.len(), 16);
    assert_eq!(grid[0].len(), 16);
    assert_eq!(grid.iter().flatten().map(|&n| n as usize).sum::<usize>(), 100);
}

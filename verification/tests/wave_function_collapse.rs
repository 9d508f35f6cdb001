use geodesic_wallpaper::wave_function_collapse::{default_rules, TileRules, WfcGrid};

fn domains(g: &WfcGrid) -> Vec<Vec<usize>> {
    let mut out = Vec::new();
    for y in 0..g.height {
        for x in 0..g.width {
            out.push(g.possibilities(x, y).clone());
        }
    }
    out
}

#[test]
fn allow_adds_both_directions() {
    let r = TileRules::new(2).allow(0, 1, 1);
    assert_eq!(r.allowed_neighbors[0][1], vec![1]);
    assert_eq!(r.allowed_neighbors[1][3], vec![0]);
    assert!(r.allowed_neighbors[0][0].is_empty());
    let r = r.allow(1, 0, 1);
    assert_eq!(r.allowed_neighbors[1][0], vec![1]);
    assert_eq!(r.allowed_neighbors[1][2], vec![1]);
}

#[test]
fn default_rules_lists() {
    let r = default_rules();
    assert_eq!(r.n_tiles, 3);
    assert_eq!(r.allowed_neighbors[0][0], vec![0, 0, 2]);
    assert_eq!(r.allowed_neighbors[1][1], vec![1, 1, 2]);
    assert_eq!(r.allowed_neighbors[1][0], vec![1, 1]);
    assert_eq!(r.allowed_neighbors[2][3], vec![2, 2, 0, 1]);
}

#[test]
fn new_grid_allows_every_tile() {
    let g = WfcGrid::new(3, 2, default_rules());
    assert_eq!(domains(&g), vec![vec![0, 1, 2]; 6]);
    assert!(!g.is_collapsed(2, 1));
    assert_eq!(g.result(), vec![0; 6]);
}

#[test]
fn propagation_narrows_neighbours() {
    // Tile 1 (wall) allows only walls north and south of it, walls and
    // floors east and west.
    let mut g = WfcGrid::new(3, 3, default_rules());
    g.collapse_to(1, 1, 1);
    assert!(g.is_collapsed(1, 1));
    assert!(g.propagate(1, 1));
    let d = domains(&g);
    assert_eq!(d[4], vec![1]);
    assert_eq!(d[1], vec![1]); // north
    assert_eq!(d[7], vec![1]); // south
    assert_eq!(d[3], vec![1, 2]); // west
    assert_eq!(d[5], vec![1, 2]); // east
    assert_eq!(g.result()[3], 1);
}

#[test]
fn propagation_reports_contradiction() {
    // Two tiles that may never touch east-west.
    let rules = TileRules::new(2).allow(0, 0, 0).allow(1, 0, 1).allow(0, 1, 0).allow(1, 1, 1);
    let mut g = WfcGrid::new(2, 1, rules);
    g.collapse_to(0, 0, 0);
    g.collapse_to(1, 0, 1);
    assert!(!g.propagate(0, 0));
    assert!(domains(&g).iter().any(|c| c.is_empty()));
}

#[test]
fn propagating_again_changes_nothing() {
    let mut g = WfcGrid::new(4, 3, default_rules());
    g.collapse_to(0, 0, 1);
    assert!(g.propagate(0, 0));
    let once = domains(&g);
    assert!(g.propagate(0, 0));
    assert_eq!(domains(&g), once);
}

#[test]
fn render_paints_each_cell_block() {
    let mut g = WfcGrid::new(2, 1, default_rules());
    g.collapse_to(1, 0, 2);
    let colors = [(10, 20, 30), (40, 50, 60), (70, 80, 90)];
    let px = g.render(2, &colors);
    assert_eq!(px.len(), 4 * 2 * 4);
    // Row 0: two pixels of cell 0 (tile 0), two of cell 1 (tile 2).
    assert_eq!(&px[0..4], &[10, 20, 30, 255]);
    assert_eq!(&px[4..8], &[10, 20, 30, 255]);
    assert_eq!(&px[8..12], &[70, 80, 90, 255]);
    assert_eq!(&px[12..16], &[70, 80, 90, 255]);
    // Row 1 repeats row 0.
    assert_eq!(&px[16..32], &px[0..16]);
    // Colours repeat when there are fewer colours than tiles.
    let px = g.render(1, &[(1, 2, 3), (4, 5, 6)]);
    assert_eq!(px, vec![1, 2, 3, 255, 1, 2, 3, 255]);
}

#[test]
fn render_of_zero_size_tiles_is_empty() {
    let g = WfcGrid::new(3, 3, default_rules());
    assert!(g.render(0, &[(1, 2, 3)]).is_empty());
}

#[test]
fn propagation_stops_at_an_emptied_cell() {
    // A wall may not have open ground to its east.
    let mut g = WfcGrid::new(3, 3, default_rules());
    g.collapse_to(1, 0, 0);
    g.collapse_to(0, 0, 1);
    assert!(!g.propagate(0, 0));
    assert!(g.possibilities(1, 0).is_empty());
}

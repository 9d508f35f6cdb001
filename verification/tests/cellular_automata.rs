use geodesic_wallpaper::cellular_automata::{to_grayscale, to_rgb, CAAnimator, CARule, Grid, LangtonAnt};

/// Creates a glider pattern at offset (col, row).
fn make_glider(width: usize, height: usize, col: usize, row: usize) -> Grid {
    let mut grid = Grid::new(width, height, true);
    let pattern = [(0, 1), (1, 2), (2, 0), (2, 1), (2, 2)];
    for (dy, dx) in &pattern {
        grid.cells[row + dy][col + dx] = 1;
    }
    grid
}

fn alive(grid: &Grid) -> usize {
    grid.cells.iter().flat_map(|r| r.iter()).filter(|&&c| c != 0).count()
}

#[test]
fn gol_glider_survives_one_step() {
    let grid = make_glider(10, 10, 1, 1);
    let next = grid.game_of_life_step();
    assert_eq!(alive(&next), 5, "Glider should still have 5 alive cells after 1 step");
}

#[test]
fn rule_110_known_output() {
    let mut grid = Grid::new(8, 1, true);
    grid.cells[0][4] = 1;
    let next = grid.rule_110_step();
    assert_eq!(next.cells[0][4], 1, "Center cell stays alive under Rule 110 with 010 pattern");
}

#[test]
fn langton_ant_changes_cell_on_step() {
    let grid = Grid::new(20, 20, true);
    let mut ant = LangtonAnt::new(grid);
    let cx = ant.x as usize;
    let cy = ant.y as usize;
    let before = ant.grid.cells[cy][cx];
    ant.step();
    let after = ant.grid.cells[cy][cx];
    assert_ne!(before, after, "Langton's Ant should flip the cell it stands on");
}

#[test]
fn to_rgb_returns_correct_size() {
    let grid = Grid::new(10, 8, false);
    let buf = to_rgb(&grid, [255, 0, 0], [0, 0, 0]);
    assert_eq!(buf.len(), 10 * 8 * 3);
}

#[test]
fn random_grid_has_some_alive_cells() {
    let grid = Grid::random(20, 20, 42);
    let n = alive(&grid);
    assert!(n > 0, "Random grid should have some alive cells");
    assert!(n < 400, "Random grid should not be entirely alive");
}

#[test]
fn glider_period_four_translates_diagonally() {
    let grid = make_glider(10, 10, 1, 1);
    let mut g = grid.game_of_life_step();
    for _ in 0..3 {
        g = g.game_of_life_step();
    }
    let expected = make_glider(10, 10, 2, 2);
    assert_eq!(g.cells, expected.cells);
}

#[test]
fn neighbor_count_wraps_on_torus() {
    let mut grid = Grid::new(4, 4, true);
    grid.cells[3][3] = 1;
    assert_eq!(grid.neighbor_count(0, 0), 1);
    let mut flat = Grid::new(4, 4, false);
    flat.cells[3][3] = 1;
    assert_eq!(flat.neighbor_count(0, 0), 0);
}

#[test]
fn langton_ant_turns_right_on_white() {
    let grid = Grid::new(11, 11, true);
    let mut ant = LangtonAnt::new(grid);
    let (x0, y0) = (ant.x, ant.y);
    ant.step();
    assert_eq!(ant.grid.cells[y0 as usize][x0 as usize], 1);
    assert_eq!(ant.direction, 1);
    assert_eq!((ant.x, ant.y), (x0 + 1, y0));
}

#[test]
fn rgb_and_grayscale_colors() {
    let mut grid = Grid::new(2, 1, false);
    grid.cells[0][1] = 1;
    assert_eq!(to_rgb(&grid, [9, 8, 7], [1, 2, 3]), vec![1, 2, 3, 9, 8, 7]);
    assert_eq!(to_grayscale(&grid), vec![0, 255]);
}

#[test]
fn animator_counts_frames() {
    let grid = make_glider(8, 8, 1, 1);
    let mut anim = CAAnimator::new(grid, CARule::GameOfLife);
    let frame = anim.next_frame();
    assert_eq!(frame.len(), 8 * 8);
    assert_eq!(anim.frame_count, 1);
}

#[test]
fn langton_runs_compose() {
    let mut a = LangtonAnt::new(Grid::new(15, 15, true));
    let mut b = LangtonAnt::new(Grid::new(15, 15, true));
    a.run(37);
    a.run(58);
    b.run(95);
    assert_eq!((a.x, a.y, a.direction), (b.x, b.y, b.direction));
    assert_eq!(a.grid.cells, b.grid.cells);
}

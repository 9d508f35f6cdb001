use geodesic_wallpaper::cellular_automata_2d::{CaGrid, CellState, GliderLibrary, Lcg, RuleSet};

#[test]
fn empty_grid_stays_empty() {
    let grid = CaGrid::new(10, 10, false);
    let rules = RuleSet::conway();
    let next = grid.step(&rules);
    assert_eq!(next.alive_count(), 0);
}

#[test]
fn block_is_stable_in_conway() {
    let mut grid = CaGrid::new(6, 6, false);
    GliderLibrary::place_pattern(&mut grid, &GliderLibrary::block(), 1, 1);
    let rules = RuleSet::conway();
    let next = grid.step(&rules);
    assert_eq!(grid.alive_count(), next.alive_count(), "Block should be stable");
    for y in 0..6 {
        for x in 0..6 {
            assert_eq!(grid.get(x, y), next.get(x, y), "cell ({},{}) changed", x, y);
        }
    }
}

#[test]
fn blinker_oscillates() {
    let mut grid = CaGrid::new(5, 5, false);
    GliderLibrary::place_pattern(&mut grid, &GliderLibrary::blinker(), 1, 2);
    let rules = RuleSet::conway();
    let gen1 = grid.step(&rules);
    let gen2 = gen1.step(&rules);
    assert_eq!(grid.alive_count(), gen2.alive_count());
}

#[test]
fn glider_moves_after_four_steps() {
    let mut grid = CaGrid::new(20, 20, false);
    GliderLibrary::place_pattern(&mut grid, &GliderLibrary::glider(), 1, 1);
    let rules = RuleSet::conway();
    let history = grid.run(&rules, 4);
    assert_eq!(history[0].alive_count(), 5);
    assert_eq!(history[4].alive_count(), 5);
    let differs = (0..20).any(|y| (0..20).any(|x| history[0].get(x, y) != history[4].get(x, y)));
    assert!(differs, "Glider should have moved after 4 steps");
}

#[test]
fn to_rgb_correct_length() {
    let grid = CaGrid::new(4, 4, false);
    let rgb = grid.to_rgb((255, 255, 255), (0, 0, 0));
    assert_eq!(rgb.len(), 4 * 4 * 3);
}

#[test]
fn to_ascii_correct_format() {
    let mut grid = CaGrid::new(3, 2, false);
    grid.set(0, 0, CellState::Alive);
    let ascii = grid.to_ascii();
    let lines: Vec<&str> = ascii.lines().collect();
    assert_eq!(lines.len(), 2);
    assert_eq!(lines[0], "#..");
    assert_eq!(lines[1], "...");
}

#[test]
fn ruleset_bs_notation_correct() {
    let conway = RuleSet::conway();
    assert!(conway.births(3));
    assert!(!conway.births(2));
    assert!(conway.survives(2));
    assert!(conway.survives(3));
    assert!(!conway.survives(4));

    let hl = RuleSet::high_life();
    assert!(hl.births(6));
    assert!(!hl.births(4));

    let seeds = RuleSet::seeds();
    assert!(seeds.births(2));
    assert!(!seeds.survives(2));
}

#[test]
fn wrap_get_works() {
    let mut grid = CaGrid::new(5, 5, true);
    grid.set(0, 0, CellState::Alive);
    assert_eq!(grid.get(5, 5), CellState::Alive);
}

#[test]
fn neighbor_count_corners() {
    let mut grid = CaGrid::new(3, 3, false);
    for y in 0..3 {
        for x in 0..3 {
            grid.set(x, y, CellState::Alive);
        }
    }
    assert_eq!(grid.neighbor_count(0, 0), 3);
    assert_eq!(grid.neighbor_count(1, 1), 8);
}

#[test]
fn randomize_below_threshold_extremes() {
    let mut grid = CaGrid::new(6, 5, false);
    grid.randomize_below(0, 7);
    assert_eq!(grid.alive_count(), 0);
    grid.randomize_below(1u64 << 32, 7);
    assert_eq!(grid.alive_count(), 30);
    grid.randomize_below(1u64 << 31, 12345);
    let n = grid.alive_count();
    assert!(n > 0 && n < 30);
}

#[test]
fn randomize_below_follows_generator() {
    let mut grid = CaGrid::new(4, 1, false);
    let threshold = 1u64 << 31;
    grid.randomize_below(threshold, 99);
    let mut lcg = Lcg::new(99);
    for x in 0..4 {
        let v = lcg.next_bits();
        let expected = if v < threshold { CellState::Alive } else { CellState::Dead };
        assert_eq!(grid.get(x, 0), expected);
    }
}

#[test]
fn day_and_night_rules() {
    let r = RuleSet::day_and_night();
    for n in [3u8, 6, 7, 8] {
        assert!(r.births(n));
    }
    for n in [3u8, 4, 6, 7, 8] {
        assert!(r.survives(n));
    }
    assert!(!r.survives(5));
    let m = RuleSet::mazectric();
    assert!(m.births(3));
    assert!(!m.survives(5));
}

#[test]
fn get_outside_without_wrap_is_dead() {
    let mut grid = CaGrid::new(3, 3, false);
    grid.set(0, 0, CellState::Alive);
    assert_eq!(grid.get(3, 0), CellState::Dead);
    assert_eq!(grid.get(0, 0), CellState::Alive);
}

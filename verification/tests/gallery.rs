use geodesic_wallpaper::gallery::{all_surfaces, GalleryMode, TransitionPhase};
use geodesic_wallpaper::timelapse::TimeSpan;

#[test]
fn all_surfaces_non_empty() {
    assert!(!all_surfaces().is_empty());
}

#[test]
fn all_surface_names_non_empty() {
    for name in all_surfaces() {
        assert!(!name.is_empty(), "surface name should not be empty");
    }
}

#[test]
fn initial_state_disabled() {
    let g = GalleryMode::new(false, 30, 0);
    assert!(!g.is_enabled());
    assert_eq!(g.phase(), TransitionPhase::Idle);
    assert_eq!(g.phase_start(), None);
}

#[test]
fn initial_state_enabled() {
    let g = GalleryMode::new(true, 30, 0);
    assert!(g.is_enabled());
}

#[test]
fn toggle_on_off() {
    let mut g = GalleryMode::new(false, 30, 0);
    g.toggle(0);
    assert!(g.is_enabled());
    g.toggle(0);
    assert!(!g.is_enabled());
}

#[test]
fn next_surface_advances_index() {
    let mut g = GalleryMode::new(false, 30, 0);
    let first = g.current_surface();
    g.next_surface(0);
    let second = g.current_surface();
    if all_surfaces().len() > 1 {
        assert_ne!(first, second, "surface should change after next_surface()");
    }
}

#[test]
fn next_surface_wraps() {
    let mut g = GalleryMode::new(false, 30, 0);
    let n = all_surfaces().len();
    for _ in 0..n {
        g.next_surface(0);
    }
    assert_eq!(g.current_index(), 0, "should wrap back to 0");
}

#[test]
fn prev_surface_wraps() {
    let mut g = GalleryMode::new(false, 30, 0);
    g.prev_surface(0);
    assert_eq!(g.current_index(), all_surfaces().len() - 1, "should wrap to last index");
}

#[test]
fn surface_changed_flag_cleared_after_take() {
    let mut g = GalleryMode::new(false, 30, 0);
    g.next_surface(0);
    assert!(g.take_surface_changed(), "flag should be set after advance");
    assert!(!g.take_surface_changed(), "flag should be cleared after first take");
}

#[test]
fn duration_clamped_to_min_one() {
    let g = GalleryMode::new(false, 0, 0);
    assert_eq!(g.duration(), TimeSpan::from_secs(1));
}

#[test]
fn current_surface_always_valid() {
    let mut g = GalleryMode::new(false, 30, 0);
    for _ in 0..all_surfaces().len() * 2 {
        let name = g.current_surface();
        assert!(all_surfaces().contains(&name));
        g.next_surface(0);
    }
}

#[test]
fn prev_after_next_restores_surface() {
    let mut g = GalleryMode::new(false, 30, 0);
    g.next_surface(5);
    g.next_surface(6);
    let before = g.current_index();
    g.next_surface(7);
    g.prev_surface(8);
    assert_eq!(g.current_index(), before);
}

#[test]
fn update_runs_the_fade_cycle() {
    const S: u64 = 1_000_000_000;
    let mut g = GalleryMode::new(true, 2, 0);
    assert!(g.update(0), "the initial surface is applied once");
    assert!(!g.update(1));
    assert_eq!(g.phase(), TransitionPhase::Idle);
    assert!(!g.update(2 * S));
    assert_eq!(g.phase(), TransitionPhase::FadeOut);
    assert_eq!(g.phase_start(), Some(2 * S));
    assert!(!g.update(2 * S + 700_000_000));
    assert_eq!(g.current_index(), 0);
    assert!(g.update(2 * S + 750_000_000), "fade-out complete switches surface");
    assert_eq!(g.current_index(), 1);
    assert_eq!(g.phase(), TransitionPhase::FadeIn);
    assert!(!g.update(3 * S + 500_000_000));
    assert_eq!(g.phase(), TransitionPhase::Idle);
    assert_eq!(g.phase_start(), None);
}

#[test]
fn update_does_nothing_when_disabled() {
    let mut g = GalleryMode::new(false, 1, 0);
    g.next_surface(0);
    assert!(!g.update(10_000_000_000));
    assert!(g.take_surface_changed());
}

#[test]
fn fade_duration_is_three_quarters_of_a_second() {
    let g = GalleryMode::new(true, 30, 0);
    assert_eq!(g.fade_duration(), TimeSpan { secs: 0, nanos: 750_000_000 });
    assert_eq!(g.duration(), TimeSpan::from_secs(30));
}

#[test]
fn toggling_on_resets_index_and_timer() {
    let mut g = GalleryMode::new(false, 30, 0);
    g.next_surface(5);
    assert_eq!(g.current_index(), 1);
    g.take_surface_changed();
    g.toggle(100);
    assert!(g.is_enabled());
    assert_eq!(g.current_index(), 0);
    assert_eq!(g.current_surface(), all_surfaces()[0]);
    assert!(g.take_surface_changed());
    g.next_surface(200);
    g.toggle(300);
    assert!(!g.is_enabled());
    assert_eq!(g.current_index(), 1);
}

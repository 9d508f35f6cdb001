use geodesic_wallpaper::timelapse::{frame_file_name, TimeSpan, TimelapseConfig, TimelapseDuration, TimelapseRecorder};

#[test]
fn parse_hours() {
    let d = TimelapseDuration::parse("24h").unwrap();
    assert_eq!(d.total_seconds, 24 * 3600);
}

#[test]
fn parse_minutes() {
    let d = TimelapseDuration::parse("90m").unwrap();
    assert_eq!(d.total_seconds, 90 * 60);
}

#[test]
fn parse_seconds() {
    let d = TimelapseDuration::parse("300s").unwrap();
    assert_eq!(d.total_seconds, 300);
}

#[test]
fn parse_compound() {
    let d = TimelapseDuration::parse("1h30m").unwrap();
    assert_eq!(d.total_seconds, 3600 + 1800);
}

#[test]
fn parse_compound_with_seconds() {
    let d = TimelapseDuration::parse("2h15m30s").unwrap();
    assert_eq!(d.total_seconds, 2 * 3600 + 15 * 60 + 30);
}

#[test]
fn parse_invalid_returns_error() {
    assert!(TimelapseDuration::parse("").is_err());
    assert!(TimelapseDuration::parse("5x").is_err());
    assert!(TimelapseDuration::parse("0h").is_err());
}

#[test]
fn expected_frames_correct() {
    let mut cfg = TimelapseConfig::from_duration_str("1h").unwrap();
    cfg.capture_interval = TimeSpan::from_secs(60);
    assert_eq!(cfg.expected_frames(), 60);
}

#[test]
fn frame_path_formatting() {
    let cfg = TimelapseConfig::from_duration_str("1h").unwrap();
    let rec = TimelapseRecorder::new(cfg);
    let p = rec.frame_path(42);
    assert!(p.to_string_lossy().contains("frame_000042.png"));
}

#[test]
fn duration_display() {
    let d = TimelapseDuration::parse("1h30m").unwrap();
    let s = d.display();
    assert!(s.contains('h'));
}

#[test]
fn tick_does_not_capture_before_interval() {
    let mut cfg = TimelapseConfig::from_duration_str("1h").unwrap();
    cfg.capture_interval = TimeSpan::from_secs(60);
    let mut rec = TimelapseRecorder::new(cfg);
    let due = rec.tick(TimeSpan::from_secs(30));
    assert!(!due);
    assert_eq!(rec.frame_index, 0);
}

#[test]
fn tick_captures_after_interval() {
    let mut cfg = TimelapseConfig::from_duration_str("1h").unwrap();
    cfg.capture_interval = TimeSpan::from_secs(60);
    let mut rec = TimelapseRecorder::new(cfg);
    let due = rec.tick(TimeSpan::from_secs(60));
    assert!(due);
    rec.frame_captured(false);
    assert_eq!(rec.frame_index, 1);
    assert_eq!(rec.frame_paths().len(), 0);
}

#[test]
fn finished_after_duration_elapsed() {
    let mut cfg = TimelapseConfig::from_duration_str("5s").unwrap();
    cfg.capture_interval = TimeSpan::from_secs(1);
    let mut rec = TimelapseRecorder::new(cfg);
    rec.tick(TimeSpan::from_secs(10));
    assert!(rec.finished);
    assert!(!rec.tick(TimeSpan::from_secs(10)));
}

#[test]
fn parse_errors_carry_messages() {
    let e = TimelapseDuration::parse("5x").unwrap_err();
    assert!(!e.is_empty());
    let e2 = TimelapseDuration::parse("h").unwrap_err();
    assert!(!e2.is_empty());
}

#[test]
fn parse_trims_surrounding_white_space() {
    let d = TimelapseDuration::parse("  10m  ").unwrap();
    assert_eq!(d.total_seconds, 600);
}

#[test]
fn frame_file_name_pads_to_six_digits() {
    assert_eq!(frame_file_name(42), "frame_000042.png");
    assert_eq!(frame_file_name(1234567), "frame_1234567.png");
}

#[test]
fn display_shows_units() {
    let d = TimelapseDuration::parse("1h30m").unwrap();
    assert_eq!(d.display(), "1h30m00s");
    assert_eq!(TimelapseDuration::parse("5m7s").unwrap().display(), "5m07s");
}

#[test]
fn as_std_duration_is_whole_seconds() {
    let d = TimelapseDuration::parse("2m").unwrap();
    assert_eq!(d.as_std_duration(), TimeSpan::from_secs(120));
}

#[test]
fn display_reads_back() {
    for secs in [1u64, 7, 59, 60, 61, 3599, 3600, 3661, 86399, 90061] {
        let d = TimelapseDuration { total_seconds: secs };
        let back = TimelapseDuration::parse(&d.display()).unwrap();
        assert_eq!(back.total_seconds, secs);
    }
}

#[test]
fn recorded_paths_follow_captured_frames() {
    let cfg = TimelapseConfig::from_duration_str("1h").unwrap();
    assert_eq!(cfg.output_dir, std::path::PathBuf::from("timelapse"));
    assert_eq!(cfg.output_filename, std::path::PathBuf::from("timelapse_output.mp4"));
    let mut rec = TimelapseRecorder::new(cfg);
    assert_eq!(rec.frame_path(42), std::path::PathBuf::from("timelapse").join("frame_000042.png"));
    rec.frame_captured(true);
    rec.frame_captured(false);
    rec.frame_captured(true);
    assert_eq!(rec.frame_index, 3);
    assert_eq!(rec.frame_paths(), &[rec.frame_path(0), rec.frame_path(2)]);
}

#[test]
fn paths_stay_in_capture_order_over_a_run() {
    let cfg = TimelapseConfig::from_duration_str("1h").unwrap();
    let mut rec = TimelapseRecorder::new(cfg);
    let writes = [true, false, true, true, false, true];
    let mut expected = Vec::new();
    for (k, w) in writes.iter().enumerate() {
        assert!(rec.tick(TimeSpan::from_secs(60)));
        assert!(!rec.tick(TimeSpan::from_secs(1)));
        rec.frame_captured(*w);
        if *w {
            expected.push(rec.frame_path(k));
        }
    }
    assert_eq!(rec.frame_index, 6);
    assert_eq!(rec.frame_paths(), expected.as_slice());
    assert!(rec.frame_paths().len() <= rec.frame_index);
}

use geodesic_wallpaper::parameter_tuner::{select_next_index, select_prev_index, strip_tuning_section};

#[test]
fn strip_tuning_section_removes_block() {
    let src = "[foo]\na=1\n[tuning]\nb=2\n[[tuning.parameters]]\nname=\"x\"\n[bar]\nc=3\n";
    let stripped = strip_tuning_section(src);
    assert!(stripped.contains("[foo]"), "should keep [foo]");
    assert!(stripped.contains("[bar]"), "should keep [bar]");
    assert!(!stripped.contains("[tuning]"), "should remove [tuning]");
    assert!(!stripped.contains("[[tuning.parameters]]"), "should remove tuning sub-table");
}

#[test]
fn strip_keeps_other_lines_exactly() {
    let src = "a=1\r\n [tuning] \nx=1\n[tuningx]\ny=2\n[other]\nz=3";
    assert_eq!(strip_tuning_section(src), "a=1\n[tuningx]\ny=2\n[other]\nz=3\n");
}

#[test]
fn strip_empty_and_no_tuning() {
    assert_eq!(strip_tuning_section(""), "");
    assert_eq!(strip_tuning_section("k = 1\n\n"), "k = 1\n\n");
    assert_eq!(strip_tuning_section("[tuning.sub]\nq=1\n"), "");
}

#[test]
fn selection_wraps() {
    assert_eq!(select_next_index(2, 3), 0);
    assert_eq!(select_next_index(0, 3), 1);
    assert_eq!(select_prev_index(0, 3), 2);
    assert_eq!(select_prev_index(2, 3), 1);
    assert_eq!(select_next_index(0, 0), 0);
    assert_eq!(select_prev_index(0, 0), 0);
}

use geodesic_wallpaper::palette::{hex_string, ColorPalette};

#[test]
fn test_color_palette_new() {
    let p = ColorPalette::new("test", vec![[255, 0, 0]]);
    assert_eq!(p.name, "test");
    assert_eq!(p.colors[0], [255, 0, 0]);
}

#[test]
fn test_hex_string_known_red() {
    let p = ColorPalette::new("red", vec![[255, 0, 0]]);
    assert_eq!(p.to_hex_strings()[0], "#FF0000");
}

#[test]
fn hex_strings_are_upper_case_and_padded() {
    let p = ColorPalette::new("mix", vec![[0x44, 0x88, 0xff], [1, 10, 171]]);
    assert_eq!(p.to_hex_strings(), vec!["#4488FF".to_string(), "#010AAB".to_string()]);
    assert_eq!(hex_string([0, 0, 0]), "#000000");
}

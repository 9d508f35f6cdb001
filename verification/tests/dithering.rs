use geodesic_wallpaper::dithering::{atkinson_dither, bayer_matrix, floyd_steinberg_dither, ordered_dither, reduce_to_palette, Palette};

fn grey_image(w: usize, h: usize, v: u8) -> Vec<u8> {
    vec![v; w * h * 3]
}

#[test]
fn bayer_matrix_2x2_correct() {
    let m = bayer_matrix(2);
    assert_eq!(m[0][0], 0);
    assert_eq!(m[0][1], 2);
    assert_eq!(m[1][0], 3);
    assert_eq!(m[1][1], 1);
}

#[test]
fn floyd_steinberg_output_same_dimensions() {
    let w = 16;
    let h = 16;
    let pixels = grey_image(w, h, 128);
    let out = floyd_steinberg_dither(&pixels, w, h, &Palette::monochrome());
    assert_eq!(out.len(), w * h * 3);
}

#[test]
fn monochrome_palette_only_produces_black_or_white() {
    let w = 8;
    let h = 8;
    let mut pixels = Vec::with_capacity(w * h * 3);
    for i in 0..(w * h) {
        let v = (i * 4 % 256) as u8;
        pixels.extend_from_slice(&[v, v, v]);
    }
    let out = ordered_dither(&pixels, w, h, &Palette::monochrome(), 4);
    for chunk in out.chunks_exact(3) {
        let (r, g, b) = (chunk[0], chunk[1], chunk[2]);
        assert!(
            (r == 0 && g == 0 && b == 0) || (r == 255 && g == 255 && b == 255),
            "unexpected colour ({r},{g},{b})"
        );
    }
}

#[test]
fn ega_palette_has_16_colors() {
    let p = Palette::ega();
    assert_eq!(p.colors.len(), 16);
}

#[test]
fn c64_palette_has_16_colors() {
    let p = Palette::c64();
    assert_eq!(p.colors.len(), 16);
}

#[test]
fn atkinson_output_correct_size() {
    let w = 10;
    let h = 10;
    let pixels = grey_image(w, h, 100);
    let out = atkinson_dither(&pixels, w, h, &Palette::gameboy());
    assert_eq!(out.len(), w * h * 3);
}

#[test]
fn reduce_to_palette_correct_size() {
    let w = 4;
    let h = 4;
    let pixels = grey_image(w, h, 200);
    let out = reduce_to_palette(&pixels, w, h, &Palette::monochrome());
    assert_eq!(out.len(), w * h * 3);
}

#[test]
fn find_nearest_exact_match() {
    let p = Palette::monochrome();
    assert_eq!(p.find_nearest(0, 0, 0), (0, 0, 0));
    assert_eq!(p.find_nearest(255, 255, 255), (255, 255, 255));
}

#[test]
fn find_nearest_prefers_first_on_tie_and_black_for_empty() {
    let p = Palette { colors: vec![(0, 0, 0), (20, 0, 0), (10, 0, 0)] };
    assert_eq!(p.find_nearest(15, 0, 0), (20, 0, 0));
    assert_eq!(p.find_nearest(5, 0, 0), (0, 0, 0));
    let empty = Palette { colors: vec![] };
    assert_eq!(empty.find_nearest(1, 2, 3), (0, 0, 0));
}

#[test]
fn bayer_4x4_is_a_permutation() {
    let m = bayer_matrix(4);
    let mut seen = vec![false; 16];
    for row in &m {
        for &v in row {
            seen[v as usize] = true;
        }
    }
    assert!(seen.iter().all(|&s| s));
    assert_eq!(m[0][0], 0);
    assert_eq!(m[1][1], 4);
}

#[test]
fn floyd_steinberg_spreads_error() {
    // A mid-grey row dithered to black/white alternates.
    let pixels = grey_image(4, 1, 128);
    let out = floyd_steinberg_dither(&pixels, 4, 1, &Palette::monochrome());
    assert_eq!(out, vec![255, 255, 255, 0, 0, 0, 255, 255, 255, 0, 0, 0]);
}

#[test]
fn reduce_to_palette_maps_each_pixel() {
    let pixels = vec![10, 10, 10, 250, 240, 230, 7];
    let out = reduce_to_palette(&pixels, 2, 1, &Palette::monochrome());
    assert_eq!(out, vec![0, 0, 0, 255, 255, 255]);
}

#[test]
fn ordered_dither_defaults_to_four() {
    let (w, h) = (9, 5);
    let pixels: Vec<u8> = (0..w * h * 3).map(|i| ((i * 37) % 256) as u8).collect();
    let p = Palette::c64();
    assert_eq!(ordered_dither(&pixels, w, h, &p, 3), ordered_dither(&pixels, w, h, &p, 4));
    assert_eq!(ordered_dither(&pixels, w, h, &p, 0), ordered_dither(&pixels, w, h, &p, 4));
}

#[test]
fn palette_image_dithers_to_itself() {
    let p = Palette::c64();
    let (w, h) = (7, 4);
    let mut pixels = Vec::new();
    for i in 0..w * h {
        let c = p.colors[(i * 5) % p.colors.len()];
        pixels.extend_from_slice(&[c.0, c.1, c.2]);
    }
    let once = floyd_steinberg_dither(&pixels, w, h, &p);
    assert_eq!(once, pixels);
    assert_eq!(floyd_steinberg_dither(&once, w, h, &p), once);
}

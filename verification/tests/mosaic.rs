use geodesic_wallpaper::mosaic::{
    mosaic_filter, pixelate, BlendMode, CircularPixelate, ColorReduction, MosaicConfig, PixelateConfig,
};

fn solid_image(h: usize, w: usize, color: [u8; 3]) -> Vec<Vec<[u8; 3]>> {
    vec![vec![color; w]; h]
}

fn gradient_image(h: usize, w: usize) -> Vec<Vec<[u8; 3]>> {
    (0..h).map(|r| (0..w).map(|c| [(r * 255 / h) as u8, (c * 255 / w) as u8, 128]).collect()).collect()
}

#[test]
fn test_pixelate_solid() {
    let img = solid_image(8, 8, [100, 150, 200]);
    let cfg = PixelateConfig { block_size: 4, blend_mode: BlendMode::Average };
    let out = pixelate(&img, &cfg);
    assert_eq!(out[0][0], [100, 150, 200]);
}

#[test]
fn test_pixelate_preserves_dims() {
    let img = gradient_image(16, 16);
    let cfg = PixelateConfig { block_size: 4, blend_mode: BlendMode::Median };
    let out = pixelate(&img, &cfg);
    assert_eq!(out.len(), 16);
    assert_eq!(out[0].len(), 16);
}

#[test]
fn test_pixelate_dominant() {
    let img = solid_image(4, 4, [200, 200, 200]);
    let cfg = PixelateConfig { block_size: 2, blend_mode: BlendMode::Dominant };
    let out = pixelate(&img, &cfg);
    assert_eq!(out.len(), 4);
}

#[test]
fn test_mosaic_filter_preserves_dims() {
    let img = gradient_image(16, 16);
    let cfg = MosaicConfig { tile_size: 4, grid_cols: 4, grid_rows: 4 };
    let out = mosaic_filter(&img, &cfg);
    assert_eq!(out.len(), 16);
    assert_eq!(out[0].len(), 16);
}

#[test]
fn test_mosaic_filter_solid() {
    let img = solid_image(8, 8, [50, 60, 70]);
    let cfg = MosaicConfig { tile_size: 4, grid_cols: 2, grid_rows: 2 };
    let out = mosaic_filter(&img, &cfg);
    assert_eq!(out[0][0], out[4][4]);
}

#[test]
fn test_circular_pixelate_dims() {
    let img = gradient_image(20, 20);
    let out = CircularPixelate::render(&img, 3);
    assert_eq!(out.len(), 20);
    assert_eq!(out[0].len(), 20);
}

#[test]
fn test_color_reduction_reduce() {
    let img = solid_image(4, 4, [255, 0, 0]);
    let palette = vec![[255, 0, 0], [0, 255, 0], [0, 0, 255]];
    let cr = ColorReduction::new(3);
    let out = cr.reduce(&img, &palette);
    assert_eq!(out[0][0], [255, 0, 0]);
}

#[test]
fn test_extract_palette_count() {
    let img = gradient_image(16, 16);
    let cr = ColorReduction::new(4);
    let palette = cr.extract_palette(&img, 4);
    assert_eq!(palette.len(), 4);
}

#[test]
fn test_empty_image_pixelate() {
    let img: Vec<Vec<[u8; 3]>> = vec![];
    let cfg = PixelateConfig { block_size: 4, blend_mode: BlendMode::Average };
    let out = pixelate(&img, &cfg);
    assert!(out.is_empty());
}

#[test]
fn pixelate_average_rounds_down_per_block() {
    let img = vec![vec![[0, 0, 0], [3, 5, 9], [10, 10, 10]], vec![[1, 1, 1], [0, 0, 0], [20, 20, 20]]];
    let cfg = PixelateConfig { block_size: 2, blend_mode: BlendMode::Average };
    let out = pixelate(&img, &cfg);
    assert_eq!(out[0][0], [1, 1, 2]);
    assert_eq!(out[1][1], [1, 1, 2]);
    assert_eq!(out[0][2], [15, 15, 15]);
}

#[test]
fn pixelate_median_takes_upper_middle() {
    let img = vec![vec![[1, 9, 0], [2, 8, 0], [3, 7, 0], [4, 6, 0]]];
    let cfg = PixelateConfig { block_size: 4, blend_mode: BlendMode::Median };
    let out = pixelate(&img, &cfg);
    assert_eq!(out[0][0], [3, 8, 0]);
}

#[test]
fn mosaic_dominant_quantises_to_buckets() {
    let img = vec![vec![[50, 60, 70], [50, 60, 70], [255, 255, 255]]];
    let cfg = MosaicConfig { tile_size: 3, grid_cols: 1, grid_rows: 1 };
    let out = mosaic_filter(&img, &cfg);
    assert_eq!(out[0], vec![[48, 48, 64]; 3]);
}

#[test]
fn block_size_zero_acts_as_one() {
    let img = gradient_image(3, 3);
    let cfg = PixelateConfig { block_size: 0, blend_mode: BlendMode::Average };
    assert_eq!(pixelate(&img, &cfg), img);
}

#[test]
fn reduce_with_empty_palette_keeps_image() {
    let img = gradient_image(3, 2);
    let cr = ColorReduction::new(0);
    assert_eq!(cr.reduce(&img, &[]), img);
}

#[test]
fn reduce_picks_first_of_equally_close() {
    let img = vec![vec![[10, 0, 0]]];
    let cr = ColorReduction::new(2);
    assert_eq!(cr.reduce(&img, &[[20, 0, 0], [0, 0, 0]])[0][0], [20, 0, 0]);
}

#[test]
fn extract_palette_of_empty_image_is_black() {
    let cr = ColorReduction::new(3);
    let empty: Vec<Vec<[u8; 3]>> = vec![];
    assert_eq!(cr.extract_palette(&empty, 3), vec![[0, 0, 0]; 3]);
    assert_eq!(cr.extract_palette(&vec![vec![]], 0), vec![[0, 0, 0]]);
}

#[test]
fn extract_palette_two_clusters() {
    let mut img = solid_image(2, 4, [0, 0, 0]);
    img[1] = vec![[200, 100, 50]; 4];
    let cr = ColorReduction::new(2);
    let p = cr.extract_palette(&img, 2);
    assert_eq!(p, vec![[0, 0, 0], [200, 100, 50]]);
}

#[test]
fn circular_keeps_corners_and_averages_disk() {
    let mut img = solid_image(2, 2, [0, 0, 0]);
    img[1][1] = [40, 40, 40];
    let out = CircularPixelate::render(&img, 1);
    // radius 1: the disk around (1, 1) covers (0,1), (1,0), (1,1) of the cell
    assert_eq!(out[0][0], [0, 0, 0]);
    assert_eq!(out[0][1], [13, 13, 13]);
    assert_eq!(out[1][0], [13, 13, 13]);
    assert_eq!(out[1][1], [13, 13, 13]);
}

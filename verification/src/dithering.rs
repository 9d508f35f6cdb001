//! Image dithering algorithms for wallpaper stylization.
//!
//! Bayer ordered dithering, Floyd-Steinberg error diffusion, Atkinson
//! dithering, and nearest-colour palette reduction over interleaved RGB
//! byte buffers.

use vstd::prelude::*;

verus! {

// ── Palette ───────────────────────────────────────────────────────────────────

/// A fixed colour palette for quantization.
#[derive(Debug, Clone)]
pub struct Palette {
    pub colors: Vec<(u8, u8, u8)>,
}

/// Squared Euclidean distance between `(r, g, b)` and a palette colour.
pub open spec fn color_dist(r: int, g: int, b: int, c: (u8, u8, u8)) -> int {
    (r - c.0) * (r - c.0) + (g - c.1) * (g - c.1) + (b - c.2) * (b - c.2)
}

/// Whether `colors[k]` is the first colour at minimal distance from `(r, g, b)`.
pub open spec fn is_first_nearest(colors: Seq<(u8, u8, u8)>, k: int, r: int, g: int, b: int) -> bool {
    &&& 0 <= k < colors.len()
    &&& forall|i: int| 0 <= i < colors.len() ==> color_dist(r, g, b, colors[k]) <= color_dist(r, g, b, #[trigger] colors[i])
    &&& forall|i: int| 0 <= i < k ==> color_dist(r, g, b, colors[k]) < color_dist(r, g, b, #[trigger] colors[i])
}

/// The colour `find_nearest` answers: the first nearest palette colour, or
/// black for an empty palette.
pub open spec fn nearest(colors: Seq<(u8, u8, u8)>, r: int, g: int, b: int) -> (u8, u8, u8) {
    if colors.len() == 0 {
        (0, 0, 0)
    } else {
        colors[choose|k: int| is_first_nearest(colors, k, r, g, b)]
    }
}

/// The first nearest colour is unique.
pub proof fn lemma_first_nearest_unique(colors: Seq<(u8, u8, u8)>, k1: int, k2: int, r: int, g: int, b: int)
    requires
        is_first_nearest(colors, k1, r, g, b),
        is_first_nearest(colors, k2, r, g, b),
    ensures
        k1 == k2,
{
    if k1 < k2 {
        assert(color_dist(r, g, b, colors[k2]) < color_dist(r, g, b, colors[k1]));
    } else if k2 < k1 {
        assert(color_dist(r, g, b, colors[k1]) < color_dist(r, g, b, colors[k2]));
    }
}

/// The first index of a colour nearest to `(r, g, b)` among the first `n`
/// palette entries.
pub open spec fn first_min(colors: Seq<(u8, u8, u8)>, n: nat, r: int, g: int, b: int) -> int
    decreases n,
{
    if n <= 1 {
        0
    } else {
        let k = first_min(colors, (n - 1) as nat, r, g, b);
        if color_dist(r, g, b, colors[n - 1]) < color_dist(r, g, b, colors[k]) {
            n - 1
        } else {
            k
        }
    }
}

proof fn lemma_first_min(colors: Seq<(u8, u8, u8)>, n: nat, r: int, g: int, b: int)
    requires
        1 <= n <= colors.len(),
    ensures
        0 <= first_min(colors, n, r, g, b) < n,
        forall|i: int|
            0 <= i < n ==> color_dist(r, g, b, colors[first_min(colors, n, r, g, b)]) <= color_dist(
                r,
                g,
                b,
                #[trigger] colors[i],
            ),
        forall|i: int|
            0 <= i < first_min(colors, n, r, g, b) ==> color_dist(r, g, b, colors[first_min(colors, n, r, g, b)])
                < color_dist(r, g, b, #[trigger] colors[i]),
    decreases n,
{
    if n > 1 {
        lemma_first_min(colors, (n - 1) as nat, r, g, b);
    }
}

/// With a non-empty palette, the colour `find_nearest` answers is one of
/// the palette's colours; so every pixel the dithering functions write is a
/// palette colour.
pub proof fn lemma_nearest_in_palette(colors: Seq<(u8, u8, u8)>, r: int, g: int, b: int)
    requires
        colors.len() > 0,
    ensures
        colors.contains(nearest(colors, r, g, b)),
{
    lemma_first_min(colors, colors.len(), r, g, b);
    let k = first_min(colors, colors.len(), r, g, b);
    assert(is_first_nearest(colors, k, r, g, b));
    let c = choose|j: int| is_first_nearest(colors, j, r, g, b);
    lemma_first_nearest_unique(colors, c, k, r, g, b);
    assert(colors[k] == nearest(colors, r, g, b));
}

impl Palette {
    /// Find the palette colour nearest to `(r, g, b)` by Euclidean distance
    /// (the first such colour on ties; black for an empty palette).
    pub fn find_nearest(&self, r: u8, g: u8, b: u8) -> (c: (u8, u8, u8))
        ensures
            c == nearest(self.colors@, r as int, g as int, b as int),
    {
        if self.colors.len() == 0 {
            return (0, 0, 0);
        }
        let mut best: usize = 0;
        let mut best_d = dist_i32(r, g, b, self.colors[0]);
        let mut i: usize = 1;
        while i < self.colors.len()
            invariant
                1 <= i <= self.colors@.len(),
                best < i,
                best_d == color_dist(r as int, g as int, b as int, self.colors@[best as int]),
                forall|j: int|
                    0 <= j < i ==> color_dist(r as int, g as int, b as int, self.colors@[best as int])
                        <= color_dist(r as int, g as int, b as int, #[trigger] self.colors@[j]),
                forall|j: int|
                    0 <= j < best ==> color_dist(r as int, g as int, b as int, self.colors@[best as int])
                        < color_dist(r as int, g as int, b as int, #[trigger] self.colors@[j]),
            decreases self.colors@.len() - i,
        {
            let d = dist_i32(r, g, b, self.colors[i]);
            if d < best_d {
                best = i;
                best_d = d;
            }
            i += 1;
        }
        proof {
            assert(is_first_nearest(self.colors@, best as int, r as int, g as int, b as int));
            let k = choose|k: int| is_first_nearest(self.colors@, k, r as int, g as int, b as int);
            lemma_first_nearest_unique(self.colors@, k, best as int, r as int, g as int, b as int);
        }
        self.colors[best]
    }

    /// Monochrome: black and white.
    pub fn monochrome() -> (p: Self)
        ensures
            p.colors@ == seq![(0u8, 0u8, 0u8), (255u8, 255u8, 255u8)],
    {
        Palette { colors: vec![(0, 0, 0), (255, 255, 255)] }
    }

    /// Commodore 64 16-colour palette.
    pub fn c64() -> (p: Self)
        ensures
            p.colors@ == seq![
                (0u8, 0u8, 0u8),
                (255u8, 255u8, 255u8),
                (136u8, 0u8, 0u8),
                (170u8, 255u8, 238u8),
                (204u8, 68u8, 204u8),
                (0u8, 204u8, 85u8),
                (0u8, 0u8, 170u8),
                (238u8, 238u8, 119u8),
                (221u8, 136u8, 85u8),
                (102u8, 68u8, 0u8),
                (255u8, 119u8, 119u8),
                (51u8, 51u8, 51u8),
                (119u8, 119u8, 119u8),
                (170u8, 255u8, 102u8),
                (0u8, 136u8, 255u8),
                (187u8, 187u8, 187u8),
            ],
    {
        Palette {
            colors: vec![
                (0, 0, 0),  // Black
                (255, 255, 255),  // White
                (136, 0, 0),  // Red
                (170, 255, 238),  // Cyan
                (204, 68, 204),  // Purple
                (0, 204, 85),  // Green
                (0, 0, 170),  // Blue
                (238, 238, 119),  // Yellow
                (221, 136, 85),  // Orange
                (102, 68, 0),  // Brown
                (255, 119, 119),  // Light Red
                (51, 51, 51),  // Dark Grey
                (119, 119, 119),  // Grey
                (170, 255, 102),  // Light Green
                (0, 136, 255),  // Light Blue
                (187, 187, 187),  // Light Grey
            ],
        }
    }

    /// Game Boy 4-shade green palette.
    pub fn gameboy() -> (p: Self)
        ensures
            p.colors@ == seq![
                (15u8, 56u8, 15u8),
                (48u8, 98u8, 48u8),
                (139u8, 172u8, 15u8),
                (155u8, 188u8, 15u8),
            ],
    {
        Palette {
            colors: vec![
                (15, 56, 15),  // Darkest green
                (48, 98, 48),  // Dark green
                (139, 172, 15),  // Light green
                (155, 188, 15),  // Lightest green
            ],
        }
    }

    /// EGA 16-colour palette.
    pub fn ega() -> (p: Self)
        ensures
            p.colors@ == seq![
                (0u8, 0u8, 0u8),
                (0u8, 0u8, 170u8),
                (0u8, 170u8, 0u8),
                (0u8, 170u8, 170u8),
                (170u8, 0u8, 0u8),
                (170u8, 0u8, 170u8),
                (170u8, 85u8, 0u8),
                (170u8, 170u8, 170u8),
                (85u8, 85u8, 85u8),
                (85u8, 85u8, 255u8),
                (85u8, 255u8, 85u8),
                (85u8, 255u8, 255u8),
                (255u8, 85u8, 85u8),
                (255u8, 85u8, 255u8),
                (255u8, 255u8, 85u8),
                (255u8, 255u8, 255u8),
            ],
    {
        Palette {
            colors: vec![
                (0, 0, 0),  // Black
                (0, 0, 170),  // Blue
                (0, 170, 0),  // Green
                (0, 170, 170),  // Cyan
                (170, 0, 0),  // Red
                (170, 0, 170),  // Magenta
                (170, 85, 0),  // Brown
                (170, 170, 170),  // Light Grey
                (85, 85, 85),  // Dark Grey
                (85, 85, 255),  // Bright Blue
                (85, 255, 85),  // Bright Green
                (85, 255, 255),  // Bright Cyan
                (255, 85, 85),  // Bright Red
                (255, 85, 255),  // Bright Magenta
                (255, 255, 85),  // Bright Yellow
                (255, 255, 255),  // White
            ],
        }
    }
}

/// Squared distance between `(r, g, b)` and a colour.
fn dist_i32(r: u8, g: u8, b: u8, c: (u8, u8, u8)) -> (d: i32)
    ensures
        d == color_dist(r as int, g as int, b as int, c),
{
    let dr = r as i32 - c.0 as i32;
    let dg = g as i32 - c.1 as i32;
    let db = b as i32 - c.2 as i32;
    proof {
        assert(dr * dr <= 65025) by (nonlinear_arith)
            requires -255 <= dr <= 255;
        assert(dg * dg <= 65025) by (nonlinear_arith)
            requires -255 <= dg <= 255;
        assert(db * db <= 65025) by (nonlinear_arith)
            requires -255 <= db <= 255;
        assert(dr * dr >= 0 && dg * dg >= 0 && db * db >= 0) by (nonlinear_arith);
    }
    dr * dr + dg * dg + db * db
}

// ── Bayer matrices ────────────────────────────────────────────────────────────

/// The 4×4 Bayer threshold pattern.
pub open spec fn bayer4(y: int, x: int) -> int {
    let rows = seq![seq![0int, 8, 2, 10], seq![12int, 4, 14, 6], seq![3int, 11, 1, 9], seq![15int, 7, 13, 5]];
    rows[y][x]
}

/// Entry `(y, x)` of the `n × n` Bayer threshold matrix (`n` is 2, 4 or 8;
/// the 8×8 matrix tiles four scaled copies of the 4×4 one).
pub open spec fn bayer(n: int, y: int, x: int) -> int {
    if n == 2 {
        seq![seq![0int, 2], seq![3int, 1]][y][x]
    } else if n == 4 {
        bayer4(y, x)
    } else {
        4 * bayer4(y % 4, x % 4) + seq![seq![0int, 32], seq![48int, 16]][y / 4][x / 4]
    }
}

/// Entries of the 4×4 pattern lie in `0..16`.
proof fn lemma_bayer4_bound(y: int, x: int)
    requires
        0 <= y < 4,
        0 <= x < 4,
    ensures
        0 <= bayer4(y, x) < 16,
{
    let rows = seq![seq![0int, 8, 2, 10], seq![12int, 4, 14, 6], seq![3int, 11, 1, 9], seq![15int, 7, 13, 5]];
    assert(rows[0] =~= seq![0int, 8, 2, 10]);
    assert(rows[1] =~= seq![12int, 4, 14, 6]);
    assert(rows[2] =~= seq![3int, 11, 1, 9]);
    assert(rows[3] =~= seq![15int, 7, 13, 5]);
    if y == 0 {
        assert(x == 0 || x == 1 || x == 2 || x == 3);
    } else if y == 1 {
        assert(x == 0 || x == 1 || x == 2 || x == 3);
    } else if y == 2 {
        assert(x == 0 || x == 1 || x == 2 || x == 3);
    } else {
        assert(x == 0 || x == 1 || x == 2 || x == 3);
    }
}

/// Entries of the Bayer matrices lie in `0..128`.
proof fn lemma_bayer_bound(n: int, y: int, x: int)
    requires
        n == 2 || n == 4 || n == 8,
        0 <= y < n,
        0 <= x < n,
    ensures
        0 <= bayer(n, y, x) < 128,
{
    if n == 2 {
        let rows = seq![seq![0int, 2], seq![3int, 1]];
        assert(rows[0] =~= seq![0int, 2]);
        assert(rows[1] =~= seq![3int, 1]);
        assert(y == 0 || y == 1);
        assert(x == 0 || x == 1);
    } else if n == 4 {
        lemma_bayer4_bound(y, x);
    } else {
        lemma_bayer4_bound(y % 4, x % 4);
        let base = seq![seq![0int, 32], seq![48int, 16]];
        assert(base[0] =~= seq![0int, 32]);
        assert(base[1] =~= seq![48int, 16]);
        assert(y / 4 == 0 || y / 4 == 1);
        assert(x / 4 == 0 || x / 4 == 1);
    }
}

/// The Bayer threshold matrix for size 2, 4, or anything else as 8.
pub fn bayer_matrix(n: usize) -> (m: Vec<Vec<u32>>)
    ensures
        m@.len() == tile_size(n),
        forall|y: int| 0 <= y < tile_size(n) ==> (#[trigger] m@[y])@.len() == tile_size(n),
        forall|y: int, x: int|
            0 <= y < tile_size(n) && 0 <= x < tile_size(n) ==> #[trigger] m@[y]@[x] == bayer(tile_size(n), y, x),
    decreases if n == 2 || n == 4 {
        0int
    } else {
        1int
    },
{
    if n == 2 {
        vec![vec![0, 2], vec![3, 1]]
    } else if n == 4 {
        vec![vec![0, 8, 2, 10], vec![12, 4, 14, 6], vec![3, 11, 1, 9], vec![15, 7, 13, 5]]
    } else {
        let b4 = bayer_matrix(4);
        let base: [[u32; 2]; 2] = [[0, 32], [48, 16]];
        let mut m: Vec<Vec<u32>> = Vec::new();
        let mut y: usize = 0;
        while y < 8
            invariant
                y <= 8,
                m@.len() == y,
                b4@.len() == 4,
                forall|yy: int| 0 <= yy < 4 ==> (#[trigger] b4@[yy])@.len() == 4,
                forall|yy: int, xx: int| 0 <= yy < 4 && 0 <= xx < 4 ==> #[trigger] b4@[yy]@[xx] == bayer4(yy, xx),
                base@ == seq![[0u32, 32u32], [48u32, 16u32]],
                forall|yy: int| 0 <= yy < y ==> (#[trigger] m@[yy])@.len() == 8,
                forall|yy: int, xx: int| 0 <= yy < y && 0 <= xx < 8 ==> #[trigger] m@[yy]@[xx] == bayer(8, yy, xx),
            decreases 8 - y,
        {
            let mut row: Vec<u32> = Vec::new();
            let mut x: usize = 0;
            while x < 8
                invariant
                    y < 8,
                    x <= 8,
                    row@.len() == x,
                    b4@.len() == 4,
                    forall|yy: int| 0 <= yy < 4 ==> (#[trigger] b4@[yy])@.len() == 4,
                    forall|yy: int, xx: int| 0 <= yy < 4 && 0 <= xx < 4 ==> #[trigger] b4@[yy]@[xx] == bayer4(yy, xx),
                    base@ == seq![[0u32, 32u32], [48u32, 16u32]],
                    forall|xx: int| 0 <= xx < x ==> #[trigger] row@[xx] == bayer(8, y as int, xx),
                decreases 8 - x,
            {
                let v = b4[y % 4][x % 4];
                proof {
                    assert(v == bayer4(y as int % 4, x as int % 4));
                    assert(v <= 15) by {
                        let yy = y as int % 4;
                        let xx = x as int % 4;
                        assert(0 <= yy < 4 && 0 <= xx < 4);
                    }
                }
                let bb = base[y / 4][x / 4];
                proof {
                    assert(y / 4 < 2 && x / 4 < 2);
                    assert(bb <= 48);
                }
                row.push(4 * v + bb);
                x += 1;
            }
            m.push(row);
            y += 1;
        }
        m
    }
}

// ── ordered_dither ────────────────────────────────────────────────────────────

/// The size of the Bayer matrix built for a requested size: 2 and 4 as
/// asked, 8 otherwise.
pub open spec fn tile_size(n: usize) -> int {
    if n == 2 {
        2
    } else if n == 4 {
        4
    } else {
        8
    }
}

/// The Bayer tile size ordered dithering uses for a requested matrix size:
/// 2 and 8 as asked, 4 otherwise.
pub open spec fn dither_size(matrix_size: usize) -> int {
    if matrix_size == 2 {
        2
    } else if matrix_size == 8 {
        8
    } else {
        4
    }
}

/// A channel value raised by the Bayer threshold `t / (n·n) · 255` and cut
/// at 255 (rounded down: the threshold is an exact binary fraction).
pub open spec fn raise(v: int, t: int, n: int) -> int {
    let s = (v * (n * n) + t * 255) / (n * n);
    if s > 255 {
        255
    } else {
        s
    }
}

/// The output colour of pixel `p` under ordered dithering.
pub open spec fn ordered_pixel(pixels: Seq<u8>, width: int, n: int, colors: Seq<(u8, u8, u8)>, p: int) -> (u8, u8, u8) {
    let t = bayer(n, (p / width) % n, (p % width) % n);
    nearest(
        colors,
        raise(pixels[3 * p] as int, t, n),
        raise(pixels[3 * p + 1] as int, t, n),
        raise(pixels[3 * p + 2] as int, t, n),
    )
}

/// Channel `c` (0, 1 or 2) of a colour.
pub open spec fn channel(c: (u8, u8, u8), k: int) -> u8 {
    if k == 0 {
        c.0
    } else if k == 1 {
        c.1
    } else {
        c.2
    }
}

/// Bayer matrix ordered dithering.
///
/// `matrix_size` controls the Bayer tile size (2, 4, or 8; defaults to 4).
pub fn ordered_dither(
    pixels: &[u8],
    width: usize,
    height: usize,
    palette: &Palette,
    matrix_size: usize,
) -> (out: Vec<u8>)
    requires
        width * height * 3 <= usize::MAX,
        width * height * 3 <= pixels@.len(),
    ensures
        out@.len() == width * height * 3,
        forall|k: int|
            0 <= k < width * height * 3 ==> #[trigger] out@[k] == channel(
                ordered_pixel(pixels@, width as int, dither_size(matrix_size), palette.colors@, k / 3),
                k % 3,
            ),
{
    let n: usize = if matrix_size == 2 {
        2
    } else if matrix_size == 8 {
        8
    } else {
        4
    };
    let matrix = bayer_matrix(n);
    let n2 = (n * n) as u32;
    let total = width * height * 3;
    let mut out: Vec<u8> = Vec::new();
    let mut y: usize = 0;
    while y < height
        invariant
            y <= height,
            n == dither_size(matrix_size),
            n2 == n * n,
            total == width * height * 3,
            width * height * 3 <= usize::MAX,
            width * height * 3 <= pixels@.len(),
            matrix@.len() == n,
            forall|yy: int| 0 <= yy < n ==> (#[trigger] matrix@[yy])@.len() == n,
            forall|yy: int, xx: int| 0 <= yy < n && 0 <= xx < n ==> #[trigger] matrix@[yy]@[xx] == bayer(n as int, yy, xx),
            out@.len() == y * width * 3,
            forall|k: int|
                0 <= k < out@.len() ==> #[trigger] out@[k] == channel(
                    ordered_pixel(pixels@, width as int, n as int, palette.colors@, k / 3),
                    k % 3,
                ),
        decreases height - y,
    {
        let mut x: usize = 0;
        while x < width
            invariant
                y < height,
                x <= width,
                n == dither_size(matrix_size),
                n2 == n * n,
                width * height * 3 <= usize::MAX,
                width * height * 3 <= pixels@.len(),
                matrix@.len() == n,
                forall|yy: int| 0 <= yy < n ==> (#[trigger] matrix@[yy])@.len() == n,
                forall|yy: int, xx: int| 0 <= yy < n && 0 <= xx < n ==> #[trigger] matrix@[yy]@[xx] == bayer(n as int, yy, xx),
                out@.len() == (y * width + x) * 3,
                forall|k: int|
                    0 <= k < out@.len() ==> #[trigger] out@[k] == channel(
                        ordered_pixel(pixels@, width as int, n as int, palette.colors@, k / 3),
                        k % 3,
                    ),
            decreases width - x,
        {
            proof {
                assert((y * width + x) * 3 + 3 <= width * height * 3) by (nonlinear_arith)
                    requires y < height, x < width;
            }
            let p = y * width + x;
            let idx = p * 3;
            let t = matrix[y % n][x % n];
            proof {
                assert(t == bayer(n as int, (y as int) % (n as int), (x as int) % (n as int)));
                lemma_bayer_bound(n as int, (y as int) % (n as int), (x as int) % (n as int));
                vstd::arithmetic::div_mod::lemma_fundamental_div_mod_converse(p as int, width as int, y as int, x as int);
            }
            let nr = raise_channel(pixels[idx], t, n2);
            let ng = raise_channel(pixels[idx + 1], t, n2);
            let nb = raise_channel(pixels[idx + 2], t, n2);
            let (qr, qg, qb) = palette.find_nearest(nr, ng, nb);
            let ghost before = out@;
            out.push(qr);
            out.push(qg);
            out.push(qb);
            proof {
                let c = ordered_pixel(pixels@, width as int, n as int, palette.colors@, p as int);
                assert(c == (qr, qg, qb));
                assert forall|k: int| 0 <= k < out@.len() implies #[trigger] out@[k] == channel(
                    ordered_pixel(pixels@, width as int, n as int, palette.colors@, k / 3),
                    k % 3,
                ) by {
                    if k >= before.len() {
                        assert(k / 3 == p);
                        assert(k == 3 * p + k % 3);
                    } else {
                        assert(out@[k] == before[k]);
                    }
                }
                assert(out@.len() == (y * width + (x + 1)) * 3) by (nonlinear_arith)
                    requires out@.len() == (y * width + x) * 3 + 3;
            }
            x += 1;
        }
        proof {
            assert(y * width + width == (y + 1) * width) by (nonlinear_arith);
        }
        y += 1;
    }
    proof {
        assert(height * width * 3 == width * height * 3) by (nonlinear_arith);
    }
    out
}

/// One channel raised by the threshold `t` of an `n2`-cell Bayer tile.
fn raise_channel(v: u8, t: u32, n2: u32) -> (r: u8)
    requires
        n2 == 4 || n2 == 16 || n2 == 64,
        t < 128,
    ensures
        exists|n: int| n * n == n2 && r == raise(v as int, t as int, n),
{
    let s = (v as u32 * n2 + t * 255) / n2;
    let r: u8 = if s > 255 { 255 } else { s as u8 };
    proof {
        let n: int = if n2 == 4 { 2 } else if n2 == 16 { 4 } else { 8 };
        assert(n * n == n2);
        assert(r == raise(v as int, t as int, n));
    }
    r
}

// ── Error diffusion ───────────────────────────────────────────────────────────

/// Rust's integer division (rounding toward zero) by a positive divisor.
pub open spec fn tdiv(a: int, d: int) -> int {
    if a >= 0 {
        a / d
    } else {
        -((-a) / d)
    }
}

/// `v` clamped to `0..=255`.
pub open spec fn clamp255(v: int) -> int {
    if v < 0 {
        0
    } else if v > 255 {
        255
    } else {
        v
    }
}

/// The working buffer an error-diffusion dither starts from: one signed
/// triple per whole pixel of `pixels`.
pub open spec fn diffusion_start(pixels: Seq<u8>) -> Seq<(int, int, int)> {
    Seq::new(
        pixels.len() / 3,
        |i: int| (pixels[3 * i] as int, pixels[3 * i + 1] as int, pixels[3 * i + 2] as int),
    )
}

/// The palette colour chosen for a working value.
pub open spec fn quantize(colors: Seq<(u8, u8, u8)>, v: (int, int, int)) -> (u8, u8, u8) {
    nearest(colors, clamp255(v.0), clamp255(v.1), clamp255(v.2))
}

/// `buf[t]` increased by `e * factor / 16` per channel (rounding toward zero).
pub open spec fn diffuse(buf: Seq<(int, int, int)>, t: int, e: (int, int, int), factor: int, denom: int) -> Seq<(int, int, int)> {
    buf.update(
        t,
        (
            buf[t].0 + tdiv(e.0 * factor, denom),
            buf[t].1 + tdiv(e.1 * factor, denom),
            buf[t].2 + tdiv(e.2 * factor, denom),
        ),
    )
}

/// The quantization error left at pixel `i` of `buf`.
pub open spec fn quant_error(colors: Seq<(u8, u8, u8)>, buf: Seq<(int, int, int)>, i: int) -> (int, int, int) {
    let q = quantize(colors, buf[i]);
    (clamp255(buf[i].0) - q.0, clamp255(buf[i].1) - q.1, clamp255(buf[i].2) - q.2)
}

/// The Floyd–Steinberg working buffer after visiting pixel `i` of a
/// `width × height` image: 7/16 of its error to the right, 3/16 below-left,
/// 5/16 below and 1/16 below-right, within the image.
pub open spec fn fs_visit(colors: Seq<(u8, u8, u8)>, buf: Seq<(int, int, int)>, i: int, width: int, height: int) -> Seq<(int, int, int)> {
    let x = i % width;
    let y = i / width;
    let e = quant_error(colors, buf, i);
    let b1 = if x + 1 < width { diffuse(buf, i + 1, e, 7, 16) } else { buf };
    let b2 = if y + 1 < height && x > 0 { diffuse(b1, i + width - 1, e, 3, 16) } else { b1 };
    let b3 = if y + 1 < height { diffuse(b2, i + width, e, 5, 16) } else { b2 };
    if y + 1 < height && x + 1 < width { diffuse(b3, i + width + 1, e, 1, 16) } else { b3 }
}

/// The Floyd–Steinberg working buffer after the first `k` pixels.
pub open spec fn fs_buffer(colors: Seq<(u8, u8, u8)>, pixels: Seq<u8>, k: int, width: int, height: int) -> Seq<(int, int, int)>
    decreases k,
{
    if k <= 0 {
        diffusion_start(pixels)
    } else {
        fs_visit(colors, fs_buffer(colors, pixels, k - 1, width, height), k - 1, width, height)
    }
}

/// The Atkinson working buffer after visiting pixel `i`: 1/8 of its error
/// to each of the two pixels to the right, the three below around it, and
/// the one two rows down, within the image.
pub open spec fn atkinson_visit(colors: Seq<(u8, u8, u8)>, buf: Seq<(int, int, int)>, i: int, width: int, height: int) -> Seq<(int, int, int)> {
    let x = i % width;
    let y = i / width;
    let e = quant_error(colors, buf, i);
    let b1 = if x + 1 < width { diffuse(buf, i + 1, e, 1, 8) } else { buf };
    let b2 = if x + 2 < width { diffuse(b1, i + 2, e, 1, 8) } else { b1 };
    let b3 = if y + 1 < height && x >= 1 { diffuse(b2, i + width - 1, e, 1, 8) } else { b2 };
    let b4 = if y + 1 < height { diffuse(b3, i + width, e, 1, 8) } else { b3 };
    let b5 = if y + 1 < height && x + 1 < width { diffuse(b4, i + width + 1, e, 1, 8) } else { b4 };
    if y + 2 < height { diffuse(b5, i + 2 * width, e, 1, 8) } else { b5 }
}

/// The Atkinson working buffer after the first `k` pixels.
pub open spec fn atkinson_buffer(colors: Seq<(u8, u8, u8)>, pixels: Seq<u8>, k: int, width: int, height: int) -> Seq<(int, int, int)>
    decreases k,
{
    if k <= 0 {
        diffusion_start(pixels)
    } else {
        atkinson_visit(colors, atkinson_buffer(colors, pixels, k - 1, width, height), k - 1, width, height)
    }
}

/// The working buffer as mathematical integers.
pub open spec fn ints(buf: Seq<(i128, i128, i128)>) -> Seq<(int, int, int)> {
    Seq::new(buf.len(), |j: int| (buf[j].0 as int, buf[j].1 as int, buf[j].2 as int))
}

/// Every channel of every entry lies within `[-bound, bound]`.
pub open spec fn bounded(buf: Seq<(i128, i128, i128)>, bound: int) -> bool {
    forall|j: int|
        0 <= j < buf.len() ==> -bound <= (#[trigger] buf[j]).0 <= bound && -bound <= buf[j].1 <= bound
            && -bound <= buf[j].2 <= bound
}

/// Rust's `a / d` for a positive divisor, computed on magnitudes.
fn tdiv_exec(a: i128, d: i128) -> (q: i128)
    requires
        d > 0,
        -0x1_0000_0000_0000_0000_0000 <= a <= 0x1_0000_0000_0000_0000_0000,
    ensures
        q == tdiv(a as int, d as int),
{
    if a >= 0 {
        a / d
    } else {
        -((-a) / d)
    }
}

proof fn lemma_tdiv_bound(e: int, f: int, d: int)
    requires
        -255 <= e <= 255,
        0 < f <= d,
    ensures
        -255 <= tdiv(e * f, d) <= 255,
{
    assert(-255 * d <= e * f <= 255 * d) by (nonlinear_arith)
        requires -255 <= e <= 255, 0 < f <= d;
    if e * f >= 0 {
        vstd::arithmetic::div_mod::lemma_div_is_ordered(e * f, 255 * d, d);
        vstd::arithmetic::div_mod::lemma_div_multiples_vanish(255, d);
        vstd::arithmetic::div_mod::lemma_div_pos_is_pos(e * f, d);
    } else {
        vstd::arithmetic::div_mod::lemma_div_is_ordered(-(e * f), 255 * d, d);
        vstd::arithmetic::div_mod::lemma_div_multiples_vanish(255, d);
        vstd::arithmetic::div_mod::lemma_div_pos_is_pos(-(e * f), d);
    }
}

/// Adds `e * factor / denom` (rounding toward zero) to entry `t`.
fn diffuse_exec(buf: &mut Vec<(i128, i128, i128)>, t: usize, e: (i128, i128, i128), factor: i128, denom: i128, bound: Ghost<int>)
    requires
        t < old(buf)@.len(),
        0 < factor <= denom <= 16,
        -255 <= e.0 <= 255,
        -255 <= e.1 <= 255,
        -255 <= e.2 <= 255,
        0 <= bound@ <= 0x1_0000_0000_0000_0000_0000,
        bounded(old(buf)@, bound@),
    ensures
        ints(final(buf)@) == diffuse(
            ints(old(buf)@),
            t as int,
            (e.0 as int, e.1 as int, e.2 as int),
            factor as int,
            denom as int,
        ),
        bounded(final(buf)@, bound@ + 255),
        final(buf)@.len() == old(buf)@.len(),
{
    proof {
        lemma_tdiv_bound(e.0 as int, factor as int, denom as int);
        lemma_tdiv_bound(e.1 as int, factor as int, denom as int);
        lemma_tdiv_bound(e.2 as int, factor as int, denom as int);
        assert(-255 * 16 <= e.0 * factor <= 255 * 16) by (nonlinear_arith)
            requires -255 <= e.0 <= 255, 0 < factor <= 16;
        assert(-255 * 16 <= e.1 * factor <= 255 * 16) by (nonlinear_arith)
            requires -255 <= e.1 <= 255, 0 < factor <= 16;
        assert(-255 * 16 <= e.2 * factor <= 255 * 16) by (nonlinear_arith)
            requires -255 <= e.2 <= 255, 0 < factor <= 16;
    }
    let cur = buf[t];
    let a = tdiv_exec(e.0 * factor, denom);
    let b = tdiv_exec(e.1 * factor, denom);
    let c = tdiv_exec(e.2 * factor, denom);
    buf.set(t, (cur.0 + a, cur.1 + b, cur.2 + c));
    proof {
        assert(ints(final(buf)@) =~= diffuse(
            ints(old(buf)@),
            t as int,
            (e.0 as int, e.1 as int, e.2 as int),
            factor as int,
            denom as int,
        ));
    }
}

/// The working buffer of an error-diffusion dither: one signed triple per
/// whole pixel.
fn start_buffer(pixels: &[u8]) -> (buf: Vec<(i128, i128, i128)>)
    ensures
        ints(buf@) == diffusion_start(pixels@),
        buf@.len() == pixels@.len() / 3,
        bounded(buf@, 255),
{
    let len = pixels.len();
    let n = len / 3;
    let mut buf: Vec<(i128, i128, i128)> = Vec::new();
    let mut i: usize = 0;
    while i < n
        invariant
            i <= n,
            n == pixels@.len() / 3,
            len == pixels@.len(),
            buf@.len() == i,
            bounded(buf@, 255),
            forall|j: int|
                0 <= j < i ==> (#[trigger] buf@[j]).0 == pixels@[3 * j] && buf@[j].1 == pixels@[3 * j
                    + 1] && buf@[j].2 == pixels@[3 * j + 2],
        decreases n - i,
    {
        proof {
            assert(3 * i + 2 < pixels@.len()) by (nonlinear_arith)
                requires i < n, n == pixels@.len() / 3;
        }
        let c = (pixels[3 * i] as i128, pixels[3 * i + 1] as i128, pixels[3 * i + 2] as i128);
        buf.push(c);
        i += 1;
    }
    proof {
        assert(ints(buf@) =~= diffusion_start(pixels@));
    }
    buf
}

/// Clamps a working value to a byte.
fn clamp_u8(v: i128) -> (b: u8)
    ensures
        b == clamp255(v as int),
{
    if v < 0 {
        0
    } else if v > 255 {
        255
    } else {
        v as u8
    }
}

/// The palette colour for entry `i` and the quantization error it leaves.
fn quantize_entry(buf: &Vec<(i128, i128, i128)>, i: usize, palette: &Palette) -> (r: ((u8, u8, u8), (i128, i128, i128)))
    requires
        i < buf@.len(),
    ensures
        r.0 == quantize(palette.colors@, ints(buf@)[i as int]),
        (r.1.0 as int, r.1.1 as int, r.1.2 as int) == quant_error(palette.colors@, ints(buf@), i as int),
        -255 <= r.1.0 <= 255,
        -255 <= r.1.1 <= 255,
        -255 <= r.1.2 <= 255,
{
    let v = buf[i];
    let r = clamp_u8(v.0);
    let g = clamp_u8(v.1);
    let b = clamp_u8(v.2);
    let q = palette.find_nearest(r, g, b);
    let e = (r as i128 - q.0 as i128, g as i128 - q.1 as i128, b as i128 - q.2 as i128);
    (q, e)
}

/// The nearest palette colour to a colour of the palette is that colour.
proof fn lemma_nearest_of_member(colors: Seq<(u8, u8, u8)>, c: (u8, u8, u8))
    requires
        colors.contains(c),
    ensures
        nearest(colors, c.0 as int, c.1 as int, c.2 as int) == c,
{
    let (r, g, b) = (c.0 as int, c.1 as int, c.2 as int);
    lemma_nearest_in_palette(colors, r, g, b);
    lemma_first_min(colors, colors.len(), r, g, b);
    let k = first_min(colors, colors.len(), r, g, b);
    let j = choose|j: int| 0 <= j < colors.len() && colors[j] == c;
    assert(color_dist(r, g, b, colors[j]) == 0) by (nonlinear_arith)
        requires
            colors[j] == c,
            r == c.0,
            g == c.1,
            b == c.2,
    ;
    assert(is_first_nearest(colors, k, r, g, b));
    let n = choose|m: int| is_first_nearest(colors, m, r, g, b);
    lemma_first_nearest_unique(colors, n, k, r, g, b);
    let d = colors[k];
    assert(color_dist(r, g, b, d) <= 0);
    assert(r == d.0 && g == d.1 && b == d.2) by (nonlinear_arith)
        requires
            (r - d.0) * (r - d.0) + (g - d.1) * (g - d.1) + (b - d.2) * (b - d.2) <= 0,
    ;
}

/// Diffusing no error leaves the buffer as it was.
proof fn lemma_diffuse_nothing(buf: Seq<(int, int, int)>, t: int, factor: int, denom: int)
    requires
        0 <= t < buf.len(),
        denom > 0,
    ensures
        diffuse(buf, t, (0, 0, 0), factor, denom) == buf,
{
    assert(tdiv(0 * factor, denom) == 0);
    assert(diffuse(buf, t, (0, 0, 0), factor, denom) =~= buf);
}

/// `v` plus `n / d` of the error `e` in each channel, rounded toward zero.
pub open spec fn with_share(v: (int, int, int), e: (int, int, int), n: int, d: int) -> (int, int, int) {
    (v.0 + tdiv(e.0 * n, d), v.1 + tdiv(e.1 * n, d), v.2 + tdiv(e.2 * n, d))
}

/// Where pixel `i` lies in a `width`-wide image, and that the rows below
/// it that exist hold whole rows of pixels.
proof fn lemma_pixel_position(i: int, width: int, height: int)
    requires
        width > 0,
        0 <= i < width * height,
    ensures
        i == (i / width) * width + i % width,
        0 <= i % width < width,
        0 <= i / width < height,
        i + (width - 1 - i % width) < width * height,
        i / width + 1 < height ==> i + width + (width - 1 - i % width) < width * height,
        i / width + 2 < height ==> i + 2 * width + (width - 1 - i % width) < width * height,
{
    let x = i % width;
    let y = i / width;
    vstd::arithmetic::div_mod::lemma_fundamental_div_mod(i, width);
    vstd::arithmetic::div_mod::lemma_mod_bound(i, width);
    assert(0 <= y < height) by (nonlinear_arith)
        requires
            i == y * width + x,
            0 <= x < width,
            0 <= i < width * height,
            width > 0,
    ;
    assert(y * width + x + (width - 1 - x) < width * height) by (nonlinear_arith)
        requires
            y + 1 <= height,
            0 <= x < width,
            width > 0,
    ;
    if y + 1 < height {
        assert(y * width + x + width + (width - 1 - x) < width * height) by (nonlinear_arith)
            requires
                y + 2 <= height,
                0 <= x < width,
                width > 0,
        ;
    }
    if y + 2 < height {
        assert(y * width + x + 2 * width + (width - 1 - x) < width * height) by (nonlinear_arith)
            requires
                y + 3 <= height,
                0 <= x < width,
                width > 0,
        ;
    }
}

/// The Floyd–Steinberg kernel: visiting pixel `i` (at column `x`, row `y`)
/// passes 7/16 of its quantization error to the pixel on its right, 3/16
/// to the one below-left, 5/16 to the one directly below and 1/16 to the
/// one below-right, as far as those lie inside the image, and leaves every
/// other pixel as it was.
pub proof fn lemma_fs_kernel(colors: Seq<(u8, u8, u8)>, buf: Seq<(int, int, int)>, i: int, width: int, height: int)
    requires
        width > 0,
        buf.len() == width * height,
        0 <= i < buf.len(),
    ensures
        ({
            let r = fs_visit(colors, buf, i, width, height);
            let x = i % width;
            let y = i / width;
            let e = quant_error(colors, buf, i);
            &&& r.len() == buf.len()
            &&& x + 1 < width ==> r[i + 1] == with_share(buf[i + 1], e, 7, 16)
            &&& y + 1 < height && x > 0 ==> r[i + width - 1] == with_share(buf[i + width - 1], e, 3, 16)
            &&& y + 1 < height ==> r[i + width] == with_share(buf[i + width], e, 5, 16)
            &&& y + 1 < height && x + 1 < width ==> r[i + width + 1] == with_share(buf[i + width + 1], e, 1, 16)
            &&& forall|j: int|
                0 <= j < buf.len() && !(x + 1 < width && j == i + 1) && !(y + 1 < height && x > 0 && j == i
                    + width - 1) && !(y + 1 < height && j == i + width) && !(y + 1 < height && x + 1 < width && j
                    == i + width + 1) ==> #[trigger] r[j] == buf[j]
        }),
{
    lemma_pixel_position(i, width, height);
}

/// The Atkinson kernel: visiting pixel `i` (at column `x`, row `y`) passes
/// 1/8 of its quantization error to each of six neighbours, the two to its
/// right, the three below around it and the one two rows down, as far as
/// those lie inside the image, and leaves every other pixel as it was.
pub proof fn lemma_atkinson_kernel(colors: Seq<(u8, u8, u8)>, buf: Seq<(int, int, int)>, i: int, width: int, height: int)
    requires
        width > 0,
        buf.len() == width * height,
        0 <= i < buf.len(),
    ensures
        ({
            let r = atkinson_visit(colors, buf, i, width, height);
            let x = i % width;
            let y = i / width;
            let e = quant_error(colors, buf, i);
            &&& r.len() == buf.len()
            &&& x + 1 < width ==> r[i + 1] == with_share(buf[i + 1], e, 1, 8)
            &&& x + 2 < width ==> r[i + 2] == with_share(buf[i + 2], e, 1, 8)
            &&& y + 1 < height && x > 0 ==> r[i + width - 1] == with_share(buf[i + width - 1], e, 1, 8)
            &&& y + 1 < height ==> r[i + width] == with_share(buf[i + width], e, 1, 8)
            &&& y + 1 < height && x + 1 < width ==> r[i + width + 1] == with_share(buf[i + width + 1], e, 1, 8)
            &&& y + 2 < height ==> r[i + 2 * width] == with_share(buf[i + 2 * width], e, 1, 8)
            &&& forall|j: int|
                0 <= j < buf.len() && !(x + 1 < width && j == i + 1) && !(x + 2 < width && j == i + 2) && !(y
                    + 1 < height && x > 0 && j == i + width - 1) && !(y + 1 < height && j == i + width) && !(y + 1
                    < height && x + 1 < width && j == i + width + 1) && !(y + 2 < height && j == i + 2 * width)
                    ==> #[trigger] r[j] == buf[j]
        }),
{
    lemma_pixel_position(i, width, height);
}

/// Whether every pixel among the first `n` of `pixels` is a palette colour.
pub open spec fn palette_image(colors: Seq<(u8, u8, u8)>, pixels: Seq<u8>, n: int) -> bool {
    forall|i: int| 0 <= i < n ==> #[trigger] colors.contains((pixels[3 * i], pixels[3 * i + 1], pixels[3 * i + 2]))
}

/// An image made only of palette colours has no quantization error to
/// spread: Floyd–Steinberg dithering gives it back unchanged.
pub proof fn lemma_fs_keeps_palette_image(colors: Seq<(u8, u8, u8)>, pixels: Seq<u8>, width: int, height: int)
    requires
        width >= 0,
        height >= 0,
        width * height <= pixels.len() / 3,
        palette_image(colors, pixels, width * height),
    ensures
        forall|k: int|
            0 <= k < width * height * 3 ==> channel(
                quantize(colors, fs_buffer(colors, pixels, k / 3, width, height)[k / 3]),
                k % 3,
            ) == pixels[k],
{
    let start = diffusion_start(pixels);
    assert forall|k: int| 0 <= k <= width * height implies #[trigger] fs_buffer(colors, pixels, k, width, height) == start by {
        lemma_fs_unchanged(colors, pixels, width, height, k);
    }
    assert forall|k: int| 0 <= k < width * height * 3 implies channel(
        quantize(colors, fs_buffer(colors, pixels, k / 3, width, height)[k / 3]),
        k % 3,
    ) == pixels[k] by {
        let p = k / 3;
        assert(0 <= p < width * height);
        assert(fs_buffer(colors, pixels, p, width, height) == start);
        let c = (pixels[3 * p], pixels[3 * p + 1], pixels[3 * p + 2]);
        assert(colors.contains(c));
        lemma_nearest_of_member(colors, c);
        assert(k == 3 * p + k % 3);
    }
}

proof fn lemma_fs_unchanged(colors: Seq<(u8, u8, u8)>, pixels: Seq<u8>, width: int, height: int, k: int)
    requires
        width >= 0,
        height >= 0,
        width * height <= pixels.len() / 3,
        palette_image(colors, pixels, width * height),
        0 <= k <= width * height,
    ensures
        fs_buffer(colors, pixels, k, width, height) == diffusion_start(pixels),
    decreases k,
{
    if k > 0 {
        lemma_fs_unchanged(colors, pixels, width, height, k - 1);
        let buf = diffusion_start(pixels);
        let i = k - 1;
        let x = i % width;
        let y = i / width;
        assert(width > 0) by (nonlinear_arith)
            requires width * height > i, i >= 0, height >= 0, width >= 0;
        assert(i == y * width + x && 0 <= x < width && 0 <= y) by (nonlinear_arith)
            requires width > 0, i >= 0, x == i % width, y == i / width;
        assert(y < height) by (nonlinear_arith)
            requires i == y * width + x, 0 <= x, i < width * height, width > 0;
        assert((y + 1) * width <= width * height) by (nonlinear_arith)
            requires y < height, width > 0, y >= 0;
        assert((y + 1) * width == y * width + width) by (nonlinear_arith);
        if y + 1 < height {
            assert((y + 1) * width + width <= width * height) by (nonlinear_arith)
                requires y + 1 < height, width > 0, y >= 0;
        }
        assert(buf.len() == pixels.len() / 3);
        let c = (pixels[3 * i], pixels[3 * i + 1], pixels[3 * i + 2]);
        assert(colors.contains(c));
        lemma_nearest_of_member(colors, c);
        assert(quant_error(colors, buf, i) == (0int, 0int, 0int));
        if x + 1 < width {
            lemma_diffuse_nothing(buf, i + 1, 7, 16);
        }
        if y + 1 < height && x > 0 {
            lemma_diffuse_nothing(buf, i + width - 1, 3, 16);
        }
        if y + 1 < height {
            lemma_diffuse_nothing(buf, i + width, 5, 16);
        }
        if y + 1 < height && x + 1 < width {
            lemma_diffuse_nothing(buf, i + width + 1, 1, 16);
        }
    }
}

/// Floyd-Steinberg error-diffusion dithering: pixels are visited row by
/// row; each is replaced by its nearest palette colour and its error is
/// spread over the not yet visited neighbours (7/16 right, 3/16 below-left,
/// 5/16 below, 1/16 below-right).
#[verifier::spinoff_prover]
pub fn floyd_steinberg_dither(
    pixels: &[u8],
    width: usize,
    height: usize,
    palette: &Palette,
) -> (out: Vec<u8>)
    requires
        width * height * 3 <= usize::MAX,
        width * height <= pixels@.len() / 3,
    ensures
        out@.len() == width * height * 3,
        forall|k: int|
            0 <= k < width * height * 3 ==> #[trigger] out@[k] == channel(
                quantize(
                    palette.colors@,
                    fs_buffer(palette.colors@, pixels@, k / 3, width as int, height as int)[k / 3],
                ),
                k % 3,
            ),
{
    let mut buf = start_buffer(pixels);
    let mut out: Vec<u8> = Vec::new();
    let ghost colors = palette.colors@;
    let mut y: usize = 0;
    while y < height
        invariant
            y <= height,
            width * height * 3 <= usize::MAX,
            width * height <= pixels@.len() / 3,
            colors == palette.colors@,
            buf@.len() == pixels@.len() / 3,
            ints(buf@) == fs_buffer(colors, pixels@, y * width, width as int, height as int),
            bounded(buf@, 1020 * (y * width + 1)),
            out@.len() == y * width * 3,
            forall|k: int|
                0 <= k < out@.len() ==> #[trigger] out@[k] == channel(
                    quantize(colors, fs_buffer(colors, pixels@, k / 3, width as int, height as int)[k / 3]),
                    k % 3,
                ),
        decreases height - y,
    {
        let mut x: usize = 0;
        while x < width
            invariant
                y < height,
                x <= width,
                width * height * 3 <= usize::MAX,
                width * height <= pixels@.len() / 3,
                colors == palette.colors@,
                buf@.len() == pixels@.len() / 3,
                ints(buf@) == fs_buffer(colors, pixels@, y * width + x, width as int, height as int),
                bounded(buf@, 1020 * (y * width + x + 1)),
                out@.len() == (y * width + x) * 3,
                forall|k: int|
                    0 <= k < out@.len() ==> #[trigger] out@[k] == channel(
                        quantize(colors, fs_buffer(colors, pixels@, k / 3, width as int, height as int)[k / 3]),
                        k % 3,
                    ),
            decreases width - x,
        {
            proof {
                assert((y * width + x) * 3 + 3 <= width * height * 3) by (nonlinear_arith)
                    requires y < height, x < width;
                assert((y + 1) * width <= width * height) by (nonlinear_arith)
                    requires y < height;
                cellular_automata_2d_split(x as int, y as int, width as int);
                assert(1020 * (y * width + x + 1) + 1020 <= 0x1_0000_0000_0000_0000_0000) by (nonlinear_arith)
                    requires y * width + x + 1 <= width * height, width * height <= usize::MAX;
            }
            let i = y * width + x;
            proof {
                if y + 1 < height {
                    assert(i + width + 1 <= width * height) by (nonlinear_arith)
                        requires i == y * width + x, y + 1 < height, x + 1 <= width;
                    assert(i + width < width * height) by (nonlinear_arith)
                        requires i == y * width + x, y + 1 < height, x < width;
                    if x + 1 < width {
                        assert(i + width + 1 < width * height) by (nonlinear_arith)
                            requires i == y * width + x, y + 1 < height, x + 1 < width;
                    }
                }
                assert(i < width * height) by (nonlinear_arith)
                    requires i == y * width + x, y < height, x < width;
                if x + 1 < width {
                    assert(i + 1 < width * height) by (nonlinear_arith)
                        requires i == y * width + x, y < height, x + 1 < width;
                }
            }
            let ghost b0 = ints(buf@);
            let (q, e) = quantize_entry(&buf, i, palette);
            let ghost before = out@;
            out.push(q.0);
            out.push(q.1);
            out.push(q.2);
            let ghost bound = 1020 * (i + 1);
            let ghost ee = (e.0 as int, e.1 as int, e.2 as int);
            if x + 1 < width {
                diffuse_exec(&mut buf, i + 1, e, 7, 16, Ghost(bound));
            } else {
                proof { assert(bounded(buf@, bound + 255)); }
            }
            let ghost b1 = ints(buf@);
            if y + 1 < height {
                if x > 0 {
                    diffuse_exec(&mut buf, i + width - 1, e, 3, 16, Ghost(bound + 255));
                } else {
                    proof { assert(bounded(buf@, bound + 510)); }
                }
            } else {
                proof { assert(bounded(buf@, bound + 510)); }
            }
            let ghost b2 = ints(buf@);
            if y + 1 < height {
                diffuse_exec(&mut buf, i + width, e, 5, 16, Ghost(bound + 510));
            } else {
                proof { assert(bounded(buf@, bound + 765)); }
            }
            let ghost b3 = ints(buf@);
            if y + 1 < height && x + 1 < width {
                diffuse_exec(&mut buf, i + width + 1, e, 1, 16, Ghost(bound + 765));
            } else {
                proof { assert(bounded(buf@, bound + 1020)); }
            }
            proof {
                assert(ints(buf@) == fs_visit(colors, b0, i as int, width as int, height as int));
                assert(ints(buf@) == fs_buffer(colors, pixels@, i + 1, width as int, height as int));
                assert(bounded(buf@, 1020 * (i + 2)));
                let c = quantize(colors, fs_buffer(colors, pixels@, i as int, width as int, height as int)[i as int]);
                assert(q == c);
                assert forall|k: int| 0 <= k < out@.len() implies #[trigger] out@[k] == channel(
                    quantize(colors, fs_buffer(colors, pixels@, k / 3, width as int, height as int)[k / 3]),
                    k % 3,
                ) by {
                    if k >= before.len() {
                        assert(k / 3 == i);
                        assert(k == 3 * i + k % 3);
                    } else {
                        assert(out@[k] == before[k]);
                    }
                }
                assert(out@.len() == (y * width + (x + 1)) * 3) by (nonlinear_arith)
                    requires out@.len() == (y * width + x) * 3 + 3;
            }
            x += 1;
        }
        proof {
            assert(y * width + width == (y + 1) * width) by (nonlinear_arith);
        }
        y += 1;
    }
    proof {
        assert(height * width * 3 == width * height * 3) by (nonlinear_arith);
    }
    out
}

/// `(y * width + x) % width == x` and `(y * width + x) / width == y`.
proof fn cellular_automata_2d_split(x: int, y: int, width: int)
    requires
        0 <= x < width,
        0 <= y,
    ensures
        (y * width + x) % width == x,
        (y * width + x) / width == y,
{
    crate::cellular_automata_2d::lemma_row_major_split(x, y, width);
}

/// Atkinson dithering: pixels are visited row by row; each is replaced by
/// its nearest palette colour and 1/8 of its error goes to each of six
/// neighbours (two to the right, three in the next row, one two rows down),
/// so only 6/8 of the error is kept.
#[verifier::spinoff_prover]
pub fn atkinson_dither(
    pixels: &[u8],
    width: usize,
    height: usize,
    palette: &Palette,
) -> (out: Vec<u8>)
    requires
        width * height * 3 <= usize::MAX,
        width * height <= pixels@.len() / 3,
        width <= i32::MAX,
        height <= i32::MAX,
    ensures
        out@.len() == width * height * 3,
        forall|k: int|
            0 <= k < width * height * 3 ==> #[trigger] out@[k] == channel(
                quantize(
                    palette.colors@,
                    atkinson_buffer(palette.colors@, pixels@, k / 3, width as int, height as int)[k / 3],
                ),
                k % 3,
            ),
{
    let mut buf = start_buffer(pixels);
    let mut out: Vec<u8> = Vec::new();
    let ghost colors = palette.colors@;
    let mut y: usize = 0;
    while y < height
        invariant
            y <= height,
            width * height * 3 <= usize::MAX,
            width * height <= pixels@.len() / 3,
            colors == palette.colors@,
            buf@.len() == pixels@.len() / 3,
            ints(buf@) == atkinson_buffer(colors, pixels@, y * width, width as int, height as int),
            bounded(buf@, 1530 * (y * width + 1)),
            out@.len() == y * width * 3,
            forall|k: int|
                0 <= k < out@.len() ==> #[trigger] out@[k] == channel(
                    quantize(colors, atkinson_buffer(colors, pixels@, k / 3, width as int, height as int)[k / 3]),
                    k % 3,
                ),
        decreases height - y,
    {
        let mut x: usize = 0;
        while x < width
            invariant
                y < height,
                x <= width,
                width * height * 3 <= usize::MAX,
                width * height <= pixels@.len() / 3,
                colors == palette.colors@,
                buf@.len() == pixels@.len() / 3,
                ints(buf@) == atkinson_buffer(colors, pixels@, y * width + x, width as int, height as int),
                bounded(buf@, 1530 * (y * width + x + 1)),
                out@.len() == (y * width + x) * 3,
                forall|k: int|
                    0 <= k < out@.len() ==> #[trigger] out@[k] == channel(
                        quantize(colors, atkinson_buffer(colors, pixels@, k / 3, width as int, height as int)[k / 3]),
                        k % 3,
                    ),
            decreases width - x,
        {
            proof {
                assert((y * width + x) * 3 + 3 <= width * height * 3) by (nonlinear_arith)
                    requires y < height, x < width;
            }
            let i = y * width + x;
            proof {
                cellular_automata_2d_split(x as int, y as int, width as int);
                assert(1530 * (y * width + x + 1) + 1530 <= 0x1_0000_0000_0000_0000_0000) by (nonlinear_arith)
                    requires y * width + x + 1 <= width * height, width * height <= usize::MAX;
                assert(i < width * height) by (nonlinear_arith)
                    requires i == y * width + x, y < height, x < width;
                if x + 2 < width {
                    assert(i + 2 < width * height) by (nonlinear_arith)
                        requires i == y * width + x, y < height, x + 2 < width;
                }
                if x + 1 < width {
                    assert(i + 1 < width * height) by (nonlinear_arith)
                        requires i == y * width + x, y < height, x + 1 < width;
                }
                if y + 1 < height {
                    assert(i + width < width * height) by (nonlinear_arith)
                        requires i == y * width + x, y + 1 < height, x < width;
                    if x + 1 < width {
                        assert(i + width + 1 < width * height) by (nonlinear_arith)
                            requires i == y * width + x, y + 1 < height, x + 1 < width;
                    }
                }
                if y + 2 < height {
                    assert(i + 2 * width < width * height) by (nonlinear_arith)
                        requires i == y * width + x, y + 2 < height, x < width;
                }
            }
            let ghost b0 = ints(buf@);
            let (q, e) = quantize_entry(&buf, i, palette);
            let ghost before = out@;
            out.push(q.0);
            out.push(q.1);
            out.push(q.2);
            let ghost bound = 1530 * (i + 1);
            if x + 1 < width {
                diffuse_exec(&mut buf, i + 1, e, 1, 8, Ghost(bound));
            }
            proof { assert(bounded(buf@, bound + 255)); }
            if x + 2 < width {
                diffuse_exec(&mut buf, i + 2, e, 1, 8, Ghost(bound + 255));
            }
            proof { assert(bounded(buf@, bound + 510)); }
            if y + 1 < height && x >= 1 {
                diffuse_exec(&mut buf, i + width - 1, e, 1, 8, Ghost(bound + 510));
            }
            proof { assert(bounded(buf@, bound + 765)); }
            if y + 1 < height {
                diffuse_exec(&mut buf, i + width, e, 1, 8, Ghost(bound + 765));
            }
            proof { assert(bounded(buf@, bound + 1020)); }
            if y + 1 < height && x + 1 < width {
                diffuse_exec(&mut buf, i + width + 1, e, 1, 8, Ghost(bound + 1020));
            }
            proof { assert(bounded(buf@, bound + 1275)); }
            if y + 2 < height {
                diffuse_exec(&mut buf, i + 2 * width, e, 1, 8, Ghost(bound + 1275));
            }
            proof {
                assert(bounded(buf@, 1530 * (i + 2)));
                assert(ints(buf@) == atkinson_visit(colors, b0, i as int, width as int, height as int));
                assert(ints(buf@) == atkinson_buffer(colors, pixels@, i + 1, width as int, height as int));
                let c = quantize(colors, atkinson_buffer(colors, pixels@, i as int, width as int, height as int)[i as int]);
                assert(q == c);
                assert forall|k: int| 0 <= k < out@.len() implies #[trigger] out@[k] == channel(
                    quantize(colors, atkinson_buffer(colors, pixels@, k / 3, width as int, height as int)[k / 3]),
                    k % 3,
                ) by {
                    if k >= before.len() {
                        assert(k / 3 == i);
                        assert(k == 3 * i + k % 3);
                    } else {
                        assert(out@[k] == before[k]);
                    }
                }
                assert(out@.len() == (y * width + (x + 1)) * 3) by (nonlinear_arith)
                    requires out@.len() == (y * width + x) * 3 + 3;
            }
            x += 1;
        }
        proof {
            assert(y * width + width == (y + 1) * width) by (nonlinear_arith);
        }
        y += 1;
    }
    proof {
        assert(height * width * 3 == width * height * 3) by (nonlinear_arith);
    }
    out
}

// ── reduce_to_palette ─────────────────────────────────────────────────────────

/// Map each whole pixel to the nearest palette colour with no dithering
/// (the dimensions are not used; a trailing partial pixel is dropped).
pub fn reduce_to_palette(
    pixels: &[u8],
    width: usize,
    height: usize,
    palette: &Palette,
) -> (out: Vec<u8>)
    ensures
        out@.len() == (pixels@.len() / 3) * 3,
        forall|k: int|
            0 <= k < out@.len() ==> #[trigger] out@[k] == channel(
                nearest(
                    palette.colors@,
                    pixels@[3 * (k / 3)] as int,
                    pixels@[3 * (k / 3) + 1] as int,
                    pixels@[3 * (k / 3) + 2] as int,
                ),
                k % 3,
            ),
{
    let len = pixels.len();
    let n = len / 3;
    let mut out: Vec<u8> = Vec::new();
    let mut i: usize = 0;
    while i < n
        invariant
            i <= n,
            n == pixels@.len() / 3,
            len == pixels@.len(),
            out@.len() == 3 * i,
            forall|k: int|
                0 <= k < out@.len() ==> #[trigger] out@[k] == channel(
                    nearest(
                        palette.colors@,
                        pixels@[3 * (k / 3)] as int,
                        pixels@[3 * (k / 3) + 1] as int,
                        pixels@[3 * (k / 3) + 2] as int,
                    ),
                    k % 3,
                ),
        decreases n - i,
    {
        proof {
            assert(3 * i + 2 < pixels@.len()) by (nonlinear_arith)
                requires i < n, n == pixels@.len() / 3;
        }
        let (r, g, b) = palette.find_nearest(pixels[3 * i], pixels[3 * i + 1], pixels[3 * i + 2]);
        let ghost before = out@;
        out.push(r);
        out.push(g);
        out.push(b);
        proof {
            assert forall|k: int| 0 <= k < out@.len() implies #[trigger] out@[k] == channel(
                nearest(
                    palette.colors@,
                    pixels@[3 * (k / 3)] as int,
                    pixels@[3 * (k / 3) + 1] as int,
                    pixels@[3 * (k / 3) + 2] as int,
                ),
                k % 3,
            ) by {
                if k >= before.len() {
                    assert(k / 3 == i);
                } else {
                    assert(out@[k] == before[k]);
                }
            }
        }
        i += 1;
    }
    out
}

} // verus!

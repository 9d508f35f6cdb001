//! Pixelation and mosaic effects over images stored as rows of RGB pixels.
//!
//! The width of an image is the length of its first row; every row must be
//! at least that long.

use vstd::prelude::*;

verus! {

/// How to sample the representative colour of a pixel block.
#[derive(Debug, Clone, Copy, PartialEq, Eq, Structural)]
pub enum BlendMode {
    Average,
    Median,
    Dominant,
}

/// Config for square pixelation.
#[derive(Debug, Clone)]
pub struct PixelateConfig {
    pub block_size: u32,
    pub blend_mode: BlendMode,
}

/// Config for mosaic (tile) filter.
#[derive(Debug, Clone)]
pub struct MosaicConfig {
    pub tile_size: u32,
    pub grid_cols: u32,
    pub grid_rows: u32,
}

/// Reduce k colours via simple k-means initialised with evenly-spaced picks.
pub struct ColorReduction {
    pub palette_size: u8,
}

/// An image as rows of pixels.
pub open spec fn image_view(image: &Vec<Vec<[u8; 3]>>) -> Seq<Seq<[u8; 3]>> {
    image@.map_values(|row: Vec<[u8; 3]>| row@)
}

/// The width of an image: the length of its first row (0 without rows).
pub open spec fn img_width(img: Seq<Seq<[u8; 3]>>) -> int {
    if img.len() > 0 {
        img[0].len() as int
    } else {
        0
    }
}

/// Every row is at least as long as the first.
pub open spec fn rows_cover_width(img: Seq<Seq<[u8; 3]>>) -> bool {
    forall|r: int| 0 <= r < img.len() ==> (#[trigger] img[r]).len() >= img_width(img)
}

pub open spec fn min(a: int, b: int) -> int {
    if a < b {
        a
    } else {
        b
    }
}

/// Row `r`'s pixels in columns `col..min(col + bw, w)`.
pub open spec fn block_row(img: Seq<Seq<[u8; 3]>>, r: int, col: int, bw: int) -> Seq<[u8; 3]> {
    img[r].subrange(col, min(col + bw, img_width(img)))
}

/// The pixels of rows `row..end` of a block, row by row.
pub open spec fn block_rows(img: Seq<Seq<[u8; 3]>>, row: int, end: int, col: int, bw: int) -> Seq<[u8; 3]>
    decreases end - row,
{
    if end <= row {
        Seq::empty()
    } else {
        block_rows(img, row, end - 1, col, bw) + block_row(img, end - 1, col, bw)
    }
}

/// The pixels of the `bh × bw` block at `(row, col)`, clipped to the image.
pub open spec fn block(img: Seq<Seq<[u8; 3]>>, row: int, col: int, bh: int, bw: int) -> Seq<[u8; 3]> {
    block_rows(img, row, min(row + bh, img.len() as int), col, bw)
}

fn min_usize(a: usize, b: usize) -> (m: usize)
    ensures
        m == min(a as int, b as int),
{
    if a < b {
        a
    } else {
        b
    }
}

/// Collects the pixels of the `bh × bw` block at `(row, col)`, clipped to
/// the image, row by row.
fn clamp_block(image: &Vec<Vec<[u8; 3]>>, row: usize, col: usize, bh: usize, bw: usize) -> (pixels: Vec<[u8; 3]>)
    requires
        rows_cover_width(image_view(image)),
        row + bh <= usize::MAX,
        col + bw <= usize::MAX,
        col <= img_width(image_view(image)),
    ensures
        pixels@ == block(image_view(image), row as int, col as int, bh as int, bw as int),
{
    let ghost img = image_view(image);
    let h = image.len();
    let w = if h > 0 { image[0].len() } else { 0 };
    let mut pixels: Vec<[u8; 3]> = Vec::new();
    let r_end = min_usize(row + bh, h);
    let c_end = min_usize(col + bw, w);
    let mut r = row;
    proof {
        assert(img.len() == h);
        assert(w == img_width(img));
    }
    while r < r_end
        invariant
            row <= r,
            r <= r_end || r == row,
            r_end == min(row + bh, h as int),
            h == img.len(),
            img == image_view(image),
            w == img_width(img),
            c_end == min(col + bw, w as int),
            col <= w,
            rows_cover_width(img),
            pixels@ == block_rows(img, row as int, r as int, col as int, bw as int),
        decreases r_end - r,
    {
        let ghost before = pixels@;
        proof {
            assert(img[r as int] == image@[r as int]@);
            assert(img[r as int].len() >= w);
        }
        let mut c = col;
        while c < c_end
            invariant
                row <= r < r_end,
                col <= c_end,
                r_end <= h,
                col <= c <= c_end,
                c_end <= w,
                h == img.len(),
                img == image_view(image),
                img[r as int] == image@[r as int]@,
                img[r as int].len() >= w,
                pixels@ == before + img[r as int].subrange(col as int, c as int),
            decreases c_end - c,
        {
            pixels.push(image[r][c]);
            c += 1;
            proof {
                assert(pixels@ =~= before + img[r as int].subrange(col as int, c as int));
            }
        }
        r += 1;
    }
    pixels
}

// ── Representative colours ────────────────────────────────────────────────────

/// Sum of channel `k` over `pixels`.
pub open spec fn channel_sum(pixels: Seq<[u8; 3]>, k: int) -> int
    decreases pixels.len(),
{
    if pixels.len() == 0 {
        0
    } else {
        channel_sum(pixels.drop_last(), k) + pixels.last()[k]
    }
}

/// The per-channel mean (rounded down); black for no pixels.
pub open spec fn average_spec(pixels: Seq<[u8; 3]>) -> [u8; 3] {
    if pixels.len() == 0 {
        [0u8, 0u8, 0u8]
    } else {
        [
            (channel_sum(pixels, 0) / pixels.len() as int) as u8,
            (channel_sum(pixels, 1) / pixels.len() as int) as u8,
            (channel_sum(pixels, 2) / pixels.len() as int) as u8,
        ]
    }
}

proof fn lemma_channel_sum_bound(pixels: Seq<[u8; 3]>, k: int)
    requires
        0 <= k < 3,
    ensures
        0 <= channel_sum(pixels, k) <= 255 * pixels.len(),
    decreases pixels.len(),
{
    if pixels.len() > 0 {
        lemma_channel_sum_bound(pixels.drop_last(), k);
    }
}

proof fn lemma_mean_fits(s: int, n: int)
    requires
        n > 0,
        0 <= s <= 255 * n,
    ensures
        0 <= s / n <= 255,
{
    vstd::arithmetic::div_mod::lemma_div_is_ordered(s, 255 * n, n);
    vstd::arithmetic::div_mod::lemma_div_multiples_vanish(255, n);
    vstd::arithmetic::div_mod::lemma_div_pos_is_pos(s, n);
}

/// Per-channel mean colour of `pixels` (black when empty).
fn average_color(pixels: &[[u8; 3]]) -> (c: [u8; 3])
    requires
        255 * pixels@.len() <= u64::MAX,
    ensures
        c == average_spec(pixels@),
{
    if pixels.len() == 0 {
        return [0, 0, 0];
    }
    let mut r: u64 = 0;
    let mut g: u64 = 0;
    let mut b: u64 = 0;
    let mut i: usize = 0;
    while i < pixels.len()
        invariant
            i <= pixels@.len(),
            255 * pixels@.len() <= u64::MAX,
            r == channel_sum(pixels@.take(i as int), 0),
            g == channel_sum(pixels@.take(i as int), 1),
            b == channel_sum(pixels@.take(i as int), 2),
        decreases pixels@.len() - i,
    {
        proof {
            assert(pixels@.take(i + 1).drop_last() =~= pixels@.take(i as int));
            lemma_channel_sum_bound(pixels@.take(i + 1), 0);
            lemma_channel_sum_bound(pixels@.take(i + 1), 1);
            lemma_channel_sum_bound(pixels@.take(i + 1), 2);
        }
        let p = pixels[i];
        r = r + p[0] as u64;
        g = g + p[1] as u64;
        b = b + p[2] as u64;
        i += 1;
    }
    let n = pixels.len() as u64;
    proof {
        assert(pixels@.take(pixels@.len() as int) =~= pixels@);
        lemma_channel_sum_bound(pixels@, 0);
        lemma_channel_sum_bound(pixels@, 1);
        lemma_channel_sum_bound(pixels@, 2);
        lemma_mean_fits(r as int, n as int);
        lemma_mean_fits(g as int, n as int);
        lemma_mean_fits(b as int, n as int);
    }
    let c = [(r / n) as u8, (g / n) as u8, (b / n) as u8];
    proof {
        assert(c =~= average_spec(pixels@));
    }
    c
}

/// Number of pixels whose channel `k` is below `v`.
pub open spec fn count_below(pixels: Seq<[u8; 3]>, k: int, v: int) -> nat
    decreases pixels.len(),
{
    if pixels.len() == 0 {
        0
    } else {
        count_below(pixels.drop_last(), k, v) + if (pixels.last()[k] as int) < v {
            1nat
        } else {
            0nat
        }
    }
}

/// Whether `v` is the `m`-th smallest value (from 0) of channel `k`, i.e.
/// the entry at position `m` once the channel's values are sorted.
pub open spec fn is_order_stat(pixels: Seq<[u8; 3]>, k: int, m: int, v: int) -> bool {
    count_below(pixels, k, v) <= m < count_below(pixels, k, v + 1)
}

/// The per-channel median: the entry at position `len / 2` of each sorted
/// channel; black when empty.
pub open spec fn is_median(pixels: Seq<[u8; 3]>, c: [u8; 3]) -> bool {
    if pixels.len() == 0 {
        c == [0u8, 0u8, 0u8]
    } else {
        forall|k: int| 0 <= k < 3 ==> is_order_stat(pixels, k, (pixels.len() / 2) as int, #[trigger] c[k] as int)
    }
}

proof fn lemma_count_below_monotone(pixels: Seq<[u8; 3]>, k: int, v: int, w: int)
    requires
        v <= w,
    ensures
        count_below(pixels, k, v) <= count_below(pixels, k, w),
        count_below(pixels, k, w) <= pixels.len(),
    decreases pixels.len(),
{
    if pixels.len() > 0 {
        lemma_count_below_monotone(pixels.drop_last(), k, v, w);
    }
}

proof fn lemma_count_below_extremes(pixels: Seq<[u8; 3]>, k: int)
    requires
        0 <= k < 3,
    ensures
        count_below(pixels, k, 0) == 0,
        count_below(pixels, k, 256) == pixels.len(),
    decreases pixels.len(),
{
    if pixels.len() > 0 {
        lemma_count_below_extremes(pixels.drop_last(), k);
    }
}

/// The `m`-th smallest value of channel `k` (the entry at position `m` of
/// the sorted channel), found from a histogram of the channel.
fn channel_order_stat(pixels: &[[u8; 3]], k: usize, m: usize) -> (v: u8)
    requires
        k < 3,
        m < pixels@.len(),
    ensures
        is_order_stat(pixels@, k as int, m as int, v as int),
{
    let mut hist: Vec<usize> = Vec::new();
    let mut j: usize = 0;
    while j < 256
        invariant
            j <= 256,
            hist@.len() == j,
            forall|t: int| 0 <= t < j ==> hist@[t] == 0,
        decreases 256 - j,
    {
        hist.push(0);
        j += 1;
    }
    let len = pixels.len();
    proof {
        lemma_prefix_sum_zero(hist@, 256);
    }
    let mut i: usize = 0;
    while i < pixels.len()
        invariant
            i <= pixels@.len(),
            len == pixels@.len(),
            k < 3,
            hist@.len() == 256,
            forall|v: int|
                0 <= v <= 256 ==> #[trigger] count_below(pixels@.take(i as int), k as int, v)
                    == prefix_sum(hist@, v),
            forall|t: int| 0 <= t < 256 ==> hist@[t] <= i,
        decreases pixels@.len() - i,
    {
        let x = pixels[i][k];
        proof {
            assert(pixels@.take(i + 1).drop_last() =~= pixels@.take(i as int));
        }
        let ghost old_hist = hist@;
        let cur = hist[x as usize];
        hist.set(x as usize, cur + 1);
        proof {
            let t = pixels@.take(i + 1);
            assert(t.last() == pixels@[i as int]);
            assert(hist@ == old_hist.update(x as int, (old_hist[x as int] + 1) as usize));
            assert forall|v: int| 0 <= v <= 256 implies #[trigger] count_below(pixels@.take(i + 1), k as int, v)
                == prefix_sum(hist@, v) by {
                lemma_prefix_sum_bump(old_hist, x as int, v);
                assert(count_below(t, k as int, v) == count_below(t.drop_last(), k as int, v) + if (t.last()[k as int] as int) < v {
                    1nat
                } else {
                    0nat
                });
            }
        }
        i += 1;
    }
    proof {
        assert(pixels@.take(pixels@.len() as int) =~= pixels@);
        lemma_count_below_extremes(pixels@, k as int);
    }
    // The smallest v with more than m values at or below it.
    let mut v: usize = 0;
    let mut below: usize = 0;
    proof {
        lemma_count_below_monotone(pixels@, k as int, 1, 256);
        assert(prefix_sum(hist@, 1) == prefix_sum(hist@, 0) + hist@[0]);
        assert(count_below(pixels@, k as int, 1) == prefix_sum(hist@, 1));
    }
    while v < 255 && below + hist[v] <= m
        invariant
            v <= 255,
            hist@.len() == 256,
            below == prefix_sum(hist@, v as int),
            below <= m,
            below + hist@[v as int] <= pixels@.len(),
            m < pixels@.len(),
            len == pixels@.len(),
            forall|u: int| 0 <= u <= 256 ==> #[trigger] count_below(pixels@, k as int, u) == prefix_sum(hist@, u),
            count_below(pixels@, k as int, 256) == pixels@.len(),
        decreases 255 - v,
    {
        proof {
            assert(prefix_sum(hist@, v + 1) == prefix_sum(hist@, v as int) + hist@[v as int]);
            assert(count_below(pixels@, k as int, v + 1) == prefix_sum(hist@, v + 1));
            lemma_count_below_monotone(pixels@, k as int, v + 1, 256);
        }
        below = below + hist[v];
        v += 1;
        proof {
            if v < 256 {
                lemma_count_below_monotone(pixels@, k as int, v + 1, 256);
                assert(prefix_sum(hist@, v + 1) == prefix_sum(hist@, v as int) + hist@[v as int]);
                assert(count_below(pixels@, k as int, v + 1) == prefix_sum(hist@, v + 1));
            }
        }
    }
    proof {
        assert(count_below(pixels@, k as int, v as int) == prefix_sum(hist@, v as int));
        assert(count_below(pixels@, k as int, v + 1) == prefix_sum(hist@, v + 1));
        assert(prefix_sum(hist@, v + 1) == prefix_sum(hist@, v as int) + hist@[v as int]);
    }
    v as u8
}

/// Sum of the first `v` entries of a histogram.
pub open spec fn prefix_sum(h: Seq<usize>, v: int) -> int
    decreases v,
{
    if v <= 0 {
        0
    } else {
        prefix_sum(h, v - 1) + h[v - 1]
    }
}

proof fn lemma_prefix_sum_zero(h: Seq<usize>, v: int)
    requires
        0 <= v <= h.len(),
        forall|t: int| 0 <= t < h.len() ==> h[t] == 0,
    ensures
        forall|u: int| 0 <= u <= v ==> #[trigger] prefix_sum(h, u) == 0,
    decreases v,
{
    if v > 0 {
        lemma_prefix_sum_zero(h, v - 1);
        assert(prefix_sum(h, v) == prefix_sum(h, v - 1) + h[v - 1]);
    }
}

proof fn lemma_prefix_sum_bump(h: Seq<usize>, x: int, v: int)
    requires
        0 <= x < h.len(),
        h[x] < usize::MAX,
        0 <= v <= h.len(),
    ensures
        prefix_sum(h.update(x, (h[x] + 1) as usize), v) == prefix_sum(h, v) + if x < v {
            1int
        } else {
            0int
        },
    decreases v,
{
    if v > 0 {
        lemma_prefix_sum_bump(h, x, v - 1);
    }
}

/// Per-channel median colour of `pixels` (black when empty).
fn median_color(pixels: &[[u8; 3]]) -> (c: [u8; 3])
    ensures
        is_median(pixels@, c),
{
    if pixels.len() == 0 {
        return [0, 0, 0];
    }
    let m = pixels.len() / 2;
    let c = [channel_order_stat(pixels, 0, m), channel_order_stat(pixels, 1, m), channel_order_stat(pixels, 2, m)];
    proof {
        assert forall|k: int| 0 <= k < 3 implies is_order_stat(pixels@, k, (pixels@.len() / 2) as int, #[trigger] c[k] as int) by {
            if k == 0 {
            } else if k == 1 {
            } else {
            }
        }
    }
    c
}

/// The `m`-th smallest value of channel `k`.
pub open spec fn order_stat(pixels: Seq<[u8; 3]>, k: int, m: int) -> u8 {
    choose|v: u8| is_order_stat(pixels, k, m, v as int)
}

/// The per-channel median colour (black when empty).
pub open spec fn median_spec(pixels: Seq<[u8; 3]>) -> [u8; 3] {
    if pixels.len() == 0 {
        [0u8, 0u8, 0u8]
    } else {
        let m = (pixels.len() / 2) as int;
        [order_stat(pixels, 0, m), order_stat(pixels, 1, m), order_stat(pixels, 2, m)]
    }
}

/// An order statistic is unique.
proof fn lemma_order_stat_unique(pixels: Seq<[u8; 3]>, k: int, m: int, v: int, w: int)
    requires
        is_order_stat(pixels, k, m, v),
        is_order_stat(pixels, k, m, w),
    ensures
        v == w,
{
    if v < w {
        lemma_count_below_monotone(pixels, k, v + 1, w);
    } else if w < v {
        lemma_count_below_monotone(pixels, k, w + 1, v);
    }
}

proof fn lemma_median_spec(pixels: Seq<[u8; 3]>, c: [u8; 3])
    requires
        is_median(pixels, c),
    ensures
        c == median_spec(pixels),
{
    if pixels.len() > 0 {
        let m = (pixels.len() / 2) as int;
        assert forall|k: int| 0 <= k < 3 implies #[trigger] c[k] == median_spec(pixels)[k] by {
            assert(is_order_stat(pixels, k, m, c[k] as int));
            let v = order_stat(pixels, k, m);
            assert(is_order_stat(pixels, k, m, v as int));
            lemma_order_stat_unique(pixels, k, m, c[k] as int, v as int);
        }
        assert(c =~= median_spec(pixels));
    }
}

/// The 4-bit-per-channel bucket of a pixel, as a number below 4096.
pub open spec fn bucket(p: [u8; 3]) -> int {
    (p[0] / 16) * 256 + (p[1] / 16) * 16 + p[2] / 16
}

/// Number of pixels in bucket `key`.
pub open spec fn bucket_count(pixels: Seq<[u8; 3]>, key: int) -> nat
    decreases pixels.len(),
{
    if pixels.len() == 0 {
        0
    } else {
        bucket_count(pixels.drop_last(), key) + if bucket(pixels.last()) == key {
            1nat
        } else {
            0nat
        }
    }
}

/// Whether `key` is the first bucket (in numeric order) among those holding
/// the most pixels.
pub open spec fn is_first_mode(pixels: Seq<[u8; 3]>, key: int) -> bool {
    &&& 0 <= key < 4096
    &&& forall|j: int| 0 <= j < 4096 ==> bucket_count(pixels, key) >= #[trigger] bucket_count(pixels, j)
    &&& forall|j: int| 0 <= j < key ==> bucket_count(pixels, key) > #[trigger] bucket_count(pixels, j)
}

/// The colour of bucket `key`: each channel's 4-bit value shifted back up.
pub open spec fn bucket_color(key: int) -> [u8; 3] {
    [((key / 256) * 16) as u8, (((key / 16) % 16) * 16) as u8, ((key % 16) * 16) as u8]
}

/// The dominant colour: the colour of the most populated 4-bit bucket (the
/// first such bucket when several tie); black when empty.
pub open spec fn dominant_spec(pixels: Seq<[u8; 3]>) -> [u8; 3] {
    if pixels.len() == 0 {
        [0u8, 0u8, 0u8]
    } else {
        bucket_color(choose|key: int| is_first_mode(pixels, key))
    }
}

/// The colour a blend mode picks for a block.
pub open spec fn representative_spec(pixels: Seq<[u8; 3]>, mode: BlendMode) -> [u8; 3] {
    match mode {
        BlendMode::Average => average_spec(pixels),
        BlendMode::Median => median_spec(pixels),
        BlendMode::Dominant => dominant_spec(pixels),
    }
}

/// Dominant colour: quantise every channel to 4 bits and take the most
/// frequent bucket (the first in bucket order on ties).
fn dominant_color(pixels: &[[u8; 3]]) -> (c: [u8; 3])
    ensures
        c == dominant_spec(pixels@),
{
    if pixels.len() == 0 {
        return [0, 0, 0];
    }
    let mut counts: Vec<usize> = Vec::new();
    let mut j: usize = 0;
    while j < 4096
        invariant
            j <= 4096,
            counts@.len() == j,
            forall|t: int| 0 <= t < j ==> counts@[t] == 0,
        decreases 4096 - j,
    {
        counts.push(0);
        j += 1;
    }
    let len = pixels.len();
    let mut i: usize = 0;
    while i < pixels.len()
        invariant
            i <= pixels@.len(),
            len == pixels@.len(),
            counts@.len() == 4096,
            forall|t: int| 0 <= t < 4096 ==> #[trigger] counts@[t] == bucket_count(pixels@.take(i as int), t),
            forall|t: int| 0 <= t < 4096 ==> counts@[t] <= i,
        decreases pixels@.len() - i,
    {
        let p = pixels[i];
        let (a, b, c) = (p[0], p[1], p[2]);
        let key = (a >> 4) as usize * 256 + (b >> 4) as usize * 16 + (c >> 4) as usize;
        proof {
            assert((a >> 4u8) == a / 16) by (bit_vector);
            assert((b >> 4u8) == b / 16) by (bit_vector);
            assert((c >> 4u8) == c / 16) by (bit_vector);
            assert(key == bucket(p));
            assert(pixels@.take(i + 1).drop_last() =~= pixels@.take(i as int));
            assert(pixels@.take(i + 1).last() == p);
        }
        let cur = counts[key];
        counts.set(key, cur + 1);
        i += 1;
    }
    proof {
        assert(pixels@.take(pixels@.len() as int) =~= pixels@);
    }
    let mut best: usize = 0;
    let mut k: usize = 1;
    while k < 4096
        invariant
            1 <= k <= 4096,
            best < k,
            counts@.len() == 4096,
            forall|t: int| 0 <= t < 4096 ==> #[trigger] counts@[t] == bucket_count(pixels@, t),
            forall|t: int| 0 <= t < k ==> counts@[best as int] >= #[trigger] counts@[t],
            forall|t: int| 0 <= t < best ==> counts@[best as int] > #[trigger] counts@[t],
        decreases 4096 - k,
    {
        if counts[k] > counts[best] {
            best = k;
        }
        k += 1;
    }
    let c = [((best / 256) * 16) as u8, (((best / 16) % 16) * 16) as u8, ((best % 16) * 16) as u8];
    proof {
        assert forall|t: int| 0 <= t < 4096 implies bucket_count(pixels@, best as int) >= #[trigger] bucket_count(pixels@, t) by {
            assert(counts@[t] == bucket_count(pixels@, t));
        }
        assert forall|t: int| 0 <= t < best implies bucket_count(pixels@, best as int) > #[trigger] bucket_count(pixels@, t) by {
            assert(counts@[t] == bucket_count(pixels@, t));
        }
        assert(is_first_mode(pixels@, best as int));
        let key = choose|key: int| is_first_mode(pixels@, key);
        lemma_first_mode_unique(pixels@, key, best as int);
        assert(c =~= bucket_color(best as int));
    }
    c
}

proof fn lemma_first_mode_unique(pixels: Seq<[u8; 3]>, a: int, b: int)
    requires
        is_first_mode(pixels, a),
        is_first_mode(pixels, b),
    ensures
        a == b,
{
    if a < b {
        assert(bucket_count(pixels, b) > bucket_count(pixels, a));
    } else if b < a {
        assert(bucket_count(pixels, a) > bucket_count(pixels, b));
    }
}

/// The representative colour of a block under a blend mode.
fn representative(pixels: &[[u8; 3]], mode: BlendMode) -> (c: [u8; 3])
    requires
        255 * pixels@.len() <= u64::MAX,
    ensures
        c == representative_spec(pixels@, mode),
{
    match mode {
        BlendMode::Average => average_color(pixels),
        BlendMode::Median => {
            let c = median_color(pixels);
            proof {
                lemma_median_spec(pixels@, c);
            }
            c
        },
        BlendMode::Dominant => dominant_color(pixels),
    }
}

/// Squared Euclidean distance between two colours.
fn color_dist_sq(a: [u8; 3], b: [u8; 3]) -> (d: u64)
    ensures
        d == sq_dist(a, b),
{
    let dr = a[0] as i64 - b[0] as i64;
    let dg = a[1] as i64 - b[1] as i64;
    let db = a[2] as i64 - b[2] as i64;
    proof {
        assert(0 <= dr * dr <= 65025) by (nonlinear_arith)
            requires -255 <= dr <= 255;
        assert(0 <= dg * dg <= 65025) by (nonlinear_arith)
            requires -255 <= dg <= 255;
        assert(0 <= db * db <= 65025) by (nonlinear_arith)
            requires -255 <= db <= 255;
    }
    (dr * dr + dg * dg + db * db) as u64
}

/// Squared Euclidean distance between two colours.
pub open spec fn sq_dist(a: [u8; 3], b: [u8; 3]) -> int {
    (a[0] - b[0]) * (a[0] - b[0]) + (a[1] - b[1]) * (a[1] - b[1]) + (a[2] - b[2]) * (a[2] - b[2])
}

/// The image after replacing every `bs × bs` block (aligned to multiples of
/// `bs`) by its representative colour; pixels past the image width are
/// kept.
pub open spec fn block_filtered(img: Seq<Seq<[u8; 3]>>, bs: int, mode: BlendMode) -> Seq<Seq<[u8; 3]>> {
    Seq::new(
        img.len(),
        |r: int|
            Seq::new(
                img[r].len(),
                |c: int|
                    if c < img_width(img) {
                        representative_spec(block(img, (r / bs) * bs, (c / bs) * bs, bs, bs), mode)
                    } else {
                        img[r][c]
                    },
            ),
    )
}

/// A block holds (clipped rows) × (clipped columns) pixels.
proof fn lemma_block_rows_len(img: Seq<Seq<[u8; 3]>>, row: int, end: int, col: int, bw: int)
    requires
        rows_cover_width(img),
        0 <= row,
        end <= img.len(),
        0 <= col <= img_width(img),
        bw >= 0,
    ensures
        block_rows(img, row, end, col, bw).len() == if end <= row {
            0
        } else {
            (end - row) * (min(col + bw, img_width(img)) - col)
        },
    decreases end - row,
{
    if end > row {
        lemma_block_rows_len(img, row, end - 1, col, bw);
        assert(img[end - 1].len() >= img_width(img));
        let cw = min(col + bw, img_width(img)) - col;
        assert(block_row(img, end - 1, col, bw).len() == cw);
        assert(block_rows(img, row, end, col, bw) == block_rows(img, row, end - 1, col, bw) + block_row(
            img,
            end - 1,
            col,
            bw,
        ));
        if end - 1 > row {
            assert((end - 1 - row) * cw + cw == (end - row) * cw) by (nonlinear_arith);
        } else {
            assert(block_rows(img, row, end - 1, col, bw).len() == 0);
            assert(end - row == 1);
            assert((end - row) * cw == cw);
        }
    }
}

/// A clipped `bs × bs` block holds at most `min(bs, h) · min(bs, w)` pixels.
proof fn lemma_block_len_bound(img: Seq<Seq<[u8; 3]>>, row: int, col: int, bs: int)
    requires
        rows_cover_width(img),
        0 <= row,
        0 <= col <= img_width(img),
        bs >= 1,
    ensures
        block(img, row, col, bs, bs).len() <= min(bs, img.len() as int) * min(bs, img_width(img)),
{
    let end = min(row + bs, img.len() as int);
    lemma_block_rows_len(img, row, end, col, bs);
    if end > row {
        let rows = end - row;
        let cols = min(col + bs, img_width(img)) - col;
        assert(rows <= min(bs, img.len() as int));
        assert(0 <= cols <= min(bs, img_width(img)));
        assert(rows * cols <= min(bs, img.len() as int) * min(bs, img_width(img))) by (nonlinear_arith)
            requires
                0 <= rows <= min(bs, img.len() as int),
                0 <= cols <= min(bs, img_width(img)),
        ;
    } else {
        assert(0 <= min(bs, img.len() as int) * min(bs, img_width(img))) by (nonlinear_arith)
            requires bs >= 1, img.len() >= 0, img_width(img) >= 0;
    }
}

/// An element-by-element copy of a row.
fn copy_row(line: &Vec<[u8; 3]>) -> (out: Vec<[u8; 3]>)
    ensures
        out@ == line@,
{
    let mut out: Vec<[u8; 3]> = Vec::new();
    let mut i: usize = 0;
    while i < line.len()
        invariant
            i <= line@.len(),
            out@ == line@.take(i as int),
        decreases line@.len() - i,
    {
        out.push(line[i]);
        i += 1;
        proof {
            assert(out@ =~= line@.take(i as int));
        }
    }
    proof {
        assert(line@.take(line@.len() as int) =~= line@);
    }
    out
}

/// A row-by-row copy of an image.
fn copy_image(image: &Vec<Vec<[u8; 3]>>) -> (out: Vec<Vec<[u8; 3]>>)
    ensures
        image_view(&out) == image_view(image),
{
    let mut out: Vec<Vec<[u8; 3]>> = Vec::new();
    let mut r: usize = 0;
    while r < image.len()
        invariant
            r <= image@.len(),
            out@.len() == r,
            forall|j: int| 0 <= j < r ==> (#[trigger] out@[j])@ == image@[j]@,
        decreases image@.len() - r,
    {
        let line = copy_row(&image[r]);
        out.push(line);
        r += 1;
    }
    proof {
        assert(image_view(&out) =~= image_view(image));
    }
    out
}

/// Sets pixel `(r, c)` of an image.
fn set_pixel(out: &mut Vec<Vec<[u8; 3]>>, r: usize, c: usize, v: [u8; 3])
    requires
        r < old(out)@.len(),
        c < old(out)@[r as int]@.len(),
    ensures
        image_view(final(out)) == image_view(old(out)).update(
            r as int,
            image_view(old(out))[r as int].update(c as int, v),
        ),
{
    let mut line = copy_row(&out[r]);
    line.set(c, v);
    out.set(r, line);
    proof {
        assert(image_view(final(out)) =~= image_view(old(out)).update(
            r as int,
            image_view(old(out))[r as int].update(c as int, v),
        ));
    }
}

/// Replaces every aligned `bs × bs` block by its representative colour.
fn block_filter(image: &Vec<Vec<[u8; 3]>>, bs: usize, mode: BlendMode) -> (out: Vec<Vec<[u8; 3]>>)
    requires
        bs >= 1,
        image@.len() > 0,
        rows_cover_width(image_view(image)),
        image@.len() + bs <= usize::MAX,
        img_width(image_view(image)) + bs <= usize::MAX,
        255 * min(bs as int, image@.len() as int) * min(bs as int, img_width(image_view(image))) <= u64::MAX,
    ensures
        image_view(&out) == block_filtered(image_view(image), bs as int, mode),
{
    let ghost img = image_view(image);
    let h = image.len();
    let w = image[0].len();
    let mut out = copy_image(image);
    let ghost target = block_filtered(img, bs as int, mode);
    let mut row: usize = 0;
    while row < h
        invariant
            bs >= 1,
            h == img.len(),
            w == img_width(img),
            img == image_view(image),
            h + bs <= usize::MAX,
            w + bs <= usize::MAX,
            255 * min(bs as int, h as int) * min(bs as int, w as int) <= u64::MAX,
            rows_cover_width(img),
            target == block_filtered(img, bs as int, mode),
            row % bs == 0,
            image_view(&out).len() == h,
            forall|r: int| 0 <= r < h ==> (#[trigger] image_view(&out)[r]).len() == img[r].len(),
            forall|r: int, c: int|
                0 <= r < h && 0 <= c < img[r].len() ==> #[trigger] image_view(&out)[r][c] == if r < row {
                    target[r][c]
                } else {
                    img[r][c]
                },
        decreases h + bs - row,
    {
        let r_end = min_usize(row + bs, h);
        let mut col: usize = 0;
        while col < w
            invariant
                bs >= 1,
                row < h,
                row % bs == 0,
                col % bs == 0,
                r_end == min(row + bs, h as int),
                h == img.len(),
                w == img_width(img),
                img == image_view(image),
                h + bs <= usize::MAX,
                w + bs <= usize::MAX,
                255 * min(bs as int, h as int) * min(bs as int, w as int) <= u64::MAX,
                rows_cover_width(img),
                target == block_filtered(img, bs as int, mode),
                image_view(&out).len() == h,
                forall|r: int| 0 <= r < h ==> (#[trigger] image_view(&out)[r]).len() == img[r].len(),
                forall|r: int, c: int|
                    0 <= r < h && 0 <= c < img[r].len() ==> #[trigger] image_view(&out)[r][c] == if r < row
                        || (r < r_end && c < col) {
                        target[r][c]
                    } else {
                        img[r][c]
                    },
            decreases w + bs - col,
        {
            let pixels = clamp_block(image, row, col, bs, bs);
            proof {
                lemma_block_len_bound(img, row as int, col as int, bs as int);
                assert(255 * pixels@.len() <= 255 * min(bs as int, h as int) * min(bs as int, w as int)) by (nonlinear_arith)
                    requires pixels@.len() <= min(bs as int, h as int) * min(bs as int, w as int);
            }
            let rep = representative(pixels.as_slice(), mode);
            let c_end = min_usize(col + bs, w);
            let mut r = row;
            while r < r_end
                invariant
                    bs >= 1,
                    row <= r <= r_end,
                    r_end <= h,
                    r_end == min(row + bs, h as int),
                    row % bs == 0,
                    col % bs == 0,
                    c_end == min(col + bs, w as int),
                    col < w,
                    h == img.len(),
                    w == img_width(img),
                    rows_cover_width(img),
                    target == block_filtered(img, bs as int, mode),
                    rep == representative_spec(block(img, row as int, col as int, bs as int, bs as int), mode),
                    image_view(&out).len() == h,
                    forall|q: int| 0 <= q < h ==> (#[trigger] image_view(&out)[q]).len() == img[q].len(),
                    forall|q: int, c: int|
                        0 <= q < h && 0 <= c < img[q].len() ==> #[trigger] image_view(&out)[q][c] == if q < row
                            || (q < r_end && c < col) || (row <= q < r && col <= c < c_end) {
                            target[q][c]
                        } else {
                            img[q][c]
                        },
                decreases r_end - r,
            {
                let mut c = col;
                while c < c_end
                    invariant
                        bs >= 1,
                        row <= r < r_end,
                        r_end <= h,
                        r_end == min(row + bs, h as int),
                        row % bs == 0,
                        col % bs == 0,
                        col <= c <= c_end,
                        c_end == min(col + bs, w as int),
                        h == img.len(),
                        w == img_width(img),
                        rows_cover_width(img),
                        target == block_filtered(img, bs as int, mode),
                        rep == representative_spec(block(img, row as int, col as int, bs as int, bs as int), mode),
                        image_view(&out).len() == h,
                        forall|q: int| 0 <= q < h ==> (#[trigger] image_view(&out)[q]).len() == img[q].len(),
                        forall|q: int, cc: int|
                            0 <= q < h && 0 <= cc < img[q].len() ==> #[trigger] image_view(&out)[q][cc] == if q < row
                                || (q < r_end && cc < col) || (row <= q < r && col <= cc < c_end) || (q == r
                                && col <= cc < c) {
                                target[q][cc]
                            } else {
                                img[q][cc]
                            },
                    decreases c_end - c,
                {
                    proof {
                        assert(img[r as int].len() >= w);
                        assert(image_view(&out)[r as int] == out@[r as int]@);
                    }
                    set_pixel(&mut out, r, c, rep);
                    proof {
                        lemma_same_block(r as int, row as int, bs as int);
                        lemma_same_block(c as int, col as int, bs as int);
                        assert(target[r as int][c as int] == rep);
                    }
                    c += 1;
                }
                r += 1;
            }
            col = col + bs;
            proof {
                vstd::arithmetic::div_mod::lemma_mod_add_multiples_vanish((col - bs) as int, bs as int);
            }
        }
        row = row + bs;
        proof {
            vstd::arithmetic::div_mod::lemma_mod_add_multiples_vanish((row - bs) as int, bs as int);
        }
    }
    proof {
        assert forall|r: int| 0 <= r < h implies #[trigger] image_view(&out)[r] =~= target[r] by {
            assert forall|c: int| 0 <= c < img[r].len() implies image_view(&out)[r][c] == target[r][c] by {
            }
        }
        assert(image_view(&out) =~= target);
    }
    out
}

/// A position in `[start, start + bs)` with `start` a multiple of `bs`
/// lies in the block that starts at `start`.
proof fn lemma_same_block(p: int, start: int, bs: int)
    requires
        bs >= 1,
        start >= 0,
        start % bs == 0,
        start <= p < start + bs,
    ensures
        (p / bs) * bs == start,
{
    vstd::arithmetic::div_mod::lemma_fundamental_div_mod(start, bs);
    let k = start / bs;
    assert(bs * k == k * bs) by (nonlinear_arith);
    assert(p == k * bs + (p - start));
    vstd::arithmetic::div_mod::lemma_fundamental_div_mod_converse(p, bs, k, p - start);
}


/// The side of the blocks a configured size gives: the size, or 1 for 0.
pub open spec fn block_side(size: u32) -> int {
    if size == 0 {
        1
    } else {
        size as int
    }
}

/// What a block filter of configured size `size` gives: nothing for an
/// image without rows, else every aligned block replaced by its
/// representative colour.
pub open spec fn block_filter_result(img: Seq<Seq<[u8; 3]>>, size: u32, mode: BlendMode) -> Seq<
    Seq<[u8; 3]>,
> {
    if img.len() == 0 {
        Seq::empty()
    } else {
        block_filtered(img, block_side(size), mode)
    }
}

/// The machine limits a block filter of configured size `size` works within:
/// every row covers the width, block ends fit in `usize`, and a block's
/// channel sums fit in `u64`.
pub open spec fn block_filter_fits(img: Seq<Seq<[u8; 3]>>, size: u32) -> bool {
    &&& rows_cover_width(img)
    &&& img.len() + block_side(size) <= usize::MAX
    &&& img_width(img) + block_side(size) <= usize::MAX
    &&& 255 * min(block_side(size), img.len() as int) * min(block_side(size), img_width(img)) <= u64::MAX
}

fn block_filter_sized(image: &Vec<Vec<[u8; 3]>>, size: u32, mode: BlendMode) -> (out: Vec<Vec<[u8; 3]>>)
    requires
        block_filter_fits(image_view(image), size),
    ensures
        image_view(&out) == block_filter_result(image_view(image), size, mode),
{
    if image.len() == 0 {
        let out: Vec<Vec<[u8; 3]>> = Vec::new();
        proof {
            assert(image_view(&out) =~= Seq::<Seq<[u8; 3]>>::empty());
        }
        return out;
    }
    let bs: usize = if size == 0 {
        1
    } else {
        size as usize
    };
    block_filter(image, bs, mode)
}

/// Pixelates `image`: every aligned block of side `max(block_size, 1)` is
/// replaced by its representative colour under the configured blend mode.
pub fn pixelate(image: &Vec<Vec<[u8; 3]>>, config: &PixelateConfig) -> (out: Vec<Vec<[u8; 3]>>)
    requires
        block_filter_fits(image_view(image), config.block_size),
    ensures
        image_view(&out) == block_filter_result(image_view(image), config.block_size, config.blend_mode),
{
    block_filter_sized(image, config.block_size, config.blend_mode)
}

/// Replaces each aligned tile of side `max(tile_size, 1)` by the dominant
/// colour of its pixels.
pub fn mosaic_filter(image: &Vec<Vec<[u8; 3]>>, config: &MosaicConfig) -> (out: Vec<Vec<[u8; 3]>>)
    requires
        block_filter_fits(image_view(image), config.tile_size),
    ensures
        image_view(&out) == block_filter_result(image_view(image), config.tile_size, BlendMode::Dominant),
{
    block_filter_sized(image, config.tile_size, BlendMode::Dominant)
}


// ── Circular cells ────────────────────────────────────────────────────────────

/// Pixelate using circular cells.
pub struct CircularPixelate;

/// The cell radius a configured radius gives: the radius, or 1 for 0.
pub open spec fn cell_radius_of(radius: u32) -> int {
    if radius == 0 {
        1
    } else {
        radius as int
    }
}

/// Whether `(q, c)` lies in the closed disk of radius `r` around `(cy, cx)`.
pub open spec fn in_disk(q: int, c: int, cy: int, cx: int, r: int) -> bool {
    (q - cy) * (q - cy) + (c - cx) * (c - cx) <= r * r
}

/// The pixels of row `q` in columns `c_from..c_to` that lie in the disk.
pub open spec fn disk_row(img: Seq<Seq<[u8; 3]>>, q: int, cy: int, cx: int, r: int, c_from: int, c_to: int) -> Seq<
    [u8; 3],
>
    decreases c_to - c_from,
{
    if c_to <= c_from {
        Seq::empty()
    } else {
        disk_row(img, q, cy, cx, r, c_from, c_to - 1) + if in_disk(q, c_to - 1, cy, cx, r) {
            seq![img[q][c_to - 1]]
        } else {
            Seq::empty()
        }
    }
}

/// The pixels of rows `r_from..r_to`, columns `c_from..c_to`, that lie in
/// the disk, row by row.
pub open spec fn disk_rows(
    img: Seq<Seq<[u8; 3]>>,
    cy: int,
    cx: int,
    r: int,
    r_from: int,
    r_to: int,
    c_from: int,
    c_to: int,
) -> Seq<[u8; 3]>
    decreases r_to - r_from,
{
    if r_to <= r_from {
        Seq::empty()
    } else {
        disk_rows(img, cy, cx, r, r_from, r_to - 1, c_from, c_to) + disk_row(img, r_to - 1, cy, cx, r, c_from, c_to)
    }
}

/// The pixels of the cell whose square starts at `(top, left)`: those of
/// the square `[top, top + 2r) × [left, left + 2r)`, clipped to the image,
/// that lie in the disk of radius `r` around its centre.
pub open spec fn disk_pixels(img: Seq<Seq<[u8; 3]>>, top: int, left: int, r: int) -> Seq<[u8; 3]> {
    disk_rows(
        img,
        top + r,
        left + r,
        r,
        top,
        min(top + 2 * r, img.len() as int),
        left,
        min(left + 2 * r, img_width(img)),
    )
}

/// Pixel `(q, c)` after circular pixelation with radius `r`: the average of
/// its cell's disk when it lies in that disk, else unchanged.
pub open spec fn circle_cell(img: Seq<Seq<[u8; 3]>>, q: int, c: int, r: int) -> [u8; 3] {
    let top = (q / (2 * r)) * (2 * r);
    let left = (c / (2 * r)) * (2 * r);
    if c < img_width(img) && in_disk(q, c, top + r, left + r, r) {
        average_spec(disk_pixels(img, top, left, r))
    } else {
        img[q][c]
    }
}

/// The image after circular pixelation with a configured radius.
pub open spec fn circular_result(img: Seq<Seq<[u8; 3]>>, radius: u32) -> Seq<Seq<[u8; 3]>> {
    if img.len() == 0 {
        Seq::empty()
    } else {
        Seq::new(
            img.len(),
            |q: int| Seq::new(img[q].len(), |c: int| circle_cell(img, q, c, cell_radius_of(radius))),
        )
    }
}

/// The machine limits circular pixelation works within.
pub open spec fn circular_fits(img: Seq<Seq<[u8; 3]>>, radius: u32) -> bool {
    let d = 2 * cell_radius_of(radius);
    &&& rows_cover_width(img)
    &&& img.len() + d <= usize::MAX
    &&& img_width(img) + d <= usize::MAX
    &&& 255 * min(d, img.len() as int) * min(d, img_width(img)) <= u64::MAX
}

/// Whether `(q, c)` lies in the disk, for points of the square around it.
fn in_disk_exec(q: usize, c: usize, cy: usize, cx: usize, r: usize) -> (b: bool)
    requires
        cy <= q + r,
        q < cy + r,
        cx <= c + r,
        c < cx + r,
        r <= u32::MAX,
    ensures
        b == in_disk(q as int, c as int, cy as int, cx as int, r as int),
{
    let dq: i128 = q as i128 - cy as i128;
    let dc: i128 = c as i128 - cx as i128;
    let rr: i128 = r as i128;
    proof {
        assert(0 <= dq * dq <= rr * rr) by (nonlinear_arith)
            requires -rr <= dq <= rr;
        assert(0 <= dc * dc <= rr * rr) by (nonlinear_arith)
            requires -rr <= dc <= rr;
        assert(rr * rr <= 0x1_0000_0000 * 0x1_0000_0000) by (nonlinear_arith)
            requires 0 <= rr <= 0x1_0000_0000;
    }
    dq * dq + dc * dc <= rr * rr
}

proof fn lemma_disk_row_len(img: Seq<Seq<[u8; 3]>>, q: int, cy: int, cx: int, r: int, c_from: int, c_to: int)
    requires
        c_from <= c_to,
    ensures
        disk_row(img, q, cy, cx, r, c_from, c_to).len() <= c_to - c_from,
    decreases c_to - c_from,
{
    if c_to > c_from {
        lemma_disk_row_len(img, q, cy, cx, r, c_from, c_to - 1);
    }
}

proof fn lemma_disk_rows_len(
    img: Seq<Seq<[u8; 3]>>,
    cy: int,
    cx: int,
    r: int,
    r_from: int,
    r_to: int,
    c_from: int,
    c_to: int,
)
    requires
        r_from <= r_to,
        c_from <= c_to,
    ensures
        disk_rows(img, cy, cx, r, r_from, r_to, c_from, c_to).len() <= (r_to - r_from) * (c_to - c_from),
    decreases r_to - r_from,
{
    if r_to > r_from {
        lemma_disk_rows_len(img, cy, cx, r, r_from, r_to - 1, c_from, c_to);
        lemma_disk_row_len(img, r_to - 1, cy, cx, r, c_from, c_to);
        assert((r_to - 1 - r_from) * (c_to - c_from) + (c_to - c_from) == (r_to - r_from) * (c_to - c_from))
            by (nonlinear_arith);
    }
}

/// Collects the pixels of the cell whose square starts at `(top, left)`.
fn collect_disk(image: &Vec<Vec<[u8; 3]>>, top: usize, left: usize, r: usize) -> (pixels: Vec<[u8; 3]>)
    requires
        rows_cover_width(image_view(image)),
        top < image@.len(),
        left < img_width(image_view(image)),
        image@.len() + 2 * r <= usize::MAX,
        img_width(image_view(image)) + 2 * r <= usize::MAX,
        1 <= r <= u32::MAX,
    ensures
        pixels@ == disk_pixels(image_view(image), top as int, left as int, r as int),
{
    let ghost img = image_view(image);
    let h = image.len();
    let w = image[0].len();
    let cy = top + r;
    let cx = left + r;
    let r_end = min_usize(top + 2 * r, h);
    let c_end = min_usize(left + 2 * r, w);
    let mut pixels: Vec<[u8; 3]> = Vec::new();
    let mut q = top;
    while q < r_end
        invariant
            top <= q <= r_end,
            r_end == min(top + 2 * r, h as int),
            c_end == min(left + 2 * r, w as int),
            r_end <= h,
            left < c_end <= w,
            cy == top + r,
            cx == left + r,
            1 <= r <= u32::MAX,
            h == img.len(),
            w == img_width(img),
            img == image_view(image),
            rows_cover_width(img),
            pixels@ == disk_rows(img, cy as int, cx as int, r as int, top as int, q as int, left as int, c_end as int),
        decreases r_end - q,
    {
        let ghost before = pixels@;
        proof {
            assert(img[q as int] == image@[q as int]@);
            assert(img[q as int].len() >= w);
        }
        let mut c = left;
        while c < c_end
            invariant
                top <= q < r_end,
                r_end <= h,
                left <= c <= c_end,
                c_end <= w,
                r_end == min(top + 2 * r, h as int),
                c_end == min(left + 2 * r, w as int),
                cy == top + r,
                cx == left + r,
                1 <= r <= u32::MAX,
                h == img.len(),
                img == image_view(image),
                img[q as int] == image@[q as int]@,
                img[q as int].len() >= w,
                pixels@ == before + disk_row(img, q as int, cy as int, cx as int, r as int, left as int, c as int),
            decreases c_end - c,
        {
            if in_disk_exec(q, c, cy, cx, r) {
                pixels.push(image[q][c]);
            }
            c += 1;
            proof {
                assert(pixels@ =~= before + disk_row(img, q as int, cy as int, cx as int, r as int, left as int, c as int));
            }
        }
        q += 1;
    }
    pixels
}

impl CircularPixelate {
    /// Pixelates `image` with circular cells of radius `max(cell_radius, 1)`:
    /// the image is cut into aligned squares of side twice the radius, and
    /// the pixels of each square that lie in the disk around its centre are
    /// replaced by their average colour; the corners between disks are kept.
    pub fn render(image: &Vec<Vec<[u8; 3]>>, cell_radius: u32) -> (out: Vec<Vec<[u8; 3]>>)
        requires
            circular_fits(image_view(image), cell_radius),
        ensures
            image_view(&out) == circular_result(image_view(image), cell_radius),
    {
        let ghost img = image_view(image);
        let h = image.len();
        if h == 0 {
            let out: Vec<Vec<[u8; 3]>> = Vec::new();
            proof {
                assert(image_view(&out) =~= Seq::<Seq<[u8; 3]>>::empty());
            }
            return out;
        }
        let w = image[0].len();
        let r: usize = if cell_radius == 0 {
            1
        } else {
            cell_radius as usize
        };
        let d = r * 2;
        let ghost target = circular_result(img, cell_radius);
        let mut out = copy_image(image);
        let mut top: usize = 0;
        while top < h
            invariant
                1 <= r <= u32::MAX,
                r == cell_radius_of(cell_radius),
                d == 2 * r,
                h == img.len(),
                h > 0,
                w == img_width(img),
                img == image_view(image),
                circular_fits(img, cell_radius),
                target == circular_result(img, cell_radius),
                top % d == 0,
                image_view(&out).len() == h,
                forall|q: int| 0 <= q < h ==> (#[trigger] image_view(&out)[q]).len() == img[q].len(),
                forall|q: int, c: int|
                    0 <= q < h && 0 <= c < img[q].len() ==> #[trigger] image_view(&out)[q][c] == if q < top {
                        target[q][c]
                    } else {
                        img[q][c]
                    },
            decreases h + d - top,
        {
            let top_end = min_usize(top + d, h);
            let mut left: usize = 0;
            while left < w
                invariant
                    1 <= r <= u32::MAX,
                    r == cell_radius_of(cell_radius),
                    d == 2 * r,
                    h == img.len(),
                    w == img_width(img),
                    img == image_view(image),
                    circular_fits(img, cell_radius),
                    target == circular_result(img, cell_radius),
                    top < h,
                    top % d == 0,
                    left % d == 0,
                    top_end == min(top + d, h as int),
                    image_view(&out).len() == h,
                    forall|q: int| 0 <= q < h ==> (#[trigger] image_view(&out)[q]).len() == img[q].len(),
                    forall|q: int, c: int|
                        0 <= q < h && 0 <= c < img[q].len() ==> #[trigger] image_view(&out)[q][c] == if q < top
                            || (q < top_end && c < left) {
                            target[q][c]
                        } else {
                            img[q][c]
                        },
                decreases w + d - left,
            {
                let pixels = collect_disk(image, top, left, r);
                proof {
                    lemma_disk_rows_len(
                        img,
                        top + r,
                        left + r,
                        r as int,
                        top as int,
                        min(top + 2 * r, h as int),
                        left as int,
                        min(left + 2 * r, w as int),
                    );
                    let rows = min(top + 2 * r, h as int) - top;
                    let cols = min(left + 2 * r, w as int) - left;
                    assert(255 * (rows * cols) <= 255 * min(d as int, h as int) * min(d as int, w as int)) by (nonlinear_arith)
                        requires
                            0 <= rows <= min(d as int, h as int),
                            0 <= cols <= min(d as int, w as int),
                    ;
                }
                let rep = average_color(pixels.as_slice());
                let left_end = min_usize(left + d, w);
                let cy = top + r;
                let cx = left + r;
                let mut q = top;
                while q < top_end
                    invariant
                        1 <= r <= u32::MAX,
                        r == cell_radius_of(cell_radius),
                        d == 2 * r,
                        h == img.len(),
                        w == img_width(img),
                        img == image_view(image),
                        rows_cover_width(img),
                        target == circular_result(img, cell_radius),
                        top <= q <= top_end,
                        top_end == min(top + d, h as int),
                        left < w,
                        left_end == min(left + d, w as int),
                        top % d == 0,
                        left % d == 0,
                        cy == top + r,
                        cx == left + r,
                        rep == average_spec(disk_pixels(img, top as int, left as int, r as int)),
                        image_view(&out).len() == h,
                        forall|p: int| 0 <= p < h ==> (#[trigger] image_view(&out)[p]).len() == img[p].len(),
                        forall|p: int, c: int|
                            0 <= p < h && 0 <= c < img[p].len() ==> #[trigger] image_view(&out)[p][c] == if p < top
                                || (p < top_end && c < left) || (top <= p < q && left <= c < left_end) {
                                target[p][c]
                            } else {
                                img[p][c]
                            },
                    decreases top_end - q,
                {
                    let mut c = left;
                    while c < left_end
                        invariant
                            1 <= r <= u32::MAX,
                            r == cell_radius_of(cell_radius),
                            d == 2 * r,
                            h == img.len(),
                            w == img_width(img),
                            img == image_view(image),
                            rows_cover_width(img),
                            target == circular_result(img, cell_radius),
                            top <= q < top_end,
                            top_end == min(top + d, h as int),
                            left <= c <= left_end,
                            left_end == min(left + d, w as int),
                            top % d == 0,
                            left % d == 0,
                            cy == top + r,
                            cx == left + r,
                            rep == average_spec(disk_pixels(img, top as int, left as int, r as int)),
                            image_view(&out).len() == h,
                            forall|p: int| 0 <= p < h ==> (#[trigger] image_view(&out)[p]).len() == img[p].len(),
                            forall|p: int, cc: int|
                                0 <= p < h && 0 <= cc < img[p].len() ==> #[trigger] image_view(&out)[p][cc] == if p
                                    < top || (p < top_end && cc < left) || (top <= p < q && left <= cc < left_end) || (p
                                    == q && left <= cc < c) {
                                    target[p][cc]
                                } else {
                                    img[p][cc]
                                },
                        decreases left_end - c,
                    {
                        proof {
                            assert(img[q as int].len() >= w);
                            lemma_same_block(q as int, top as int, d as int);
                            lemma_same_block(c as int, left as int, d as int);
                        }
                        if in_disk_exec(q, c, cy, cx, r) {
                            proof {
                                assert(image_view(&out)[q as int] == out@[q as int]@);
                            }
                            set_pixel(&mut out, q, c, rep);
                            proof {
                                assert(target[q as int][c as int] == rep);
                            }
                        } else {
                            proof {
                                assert(target[q as int][c as int] == img[q as int][c as int]);
                            }
                        }
                        c += 1;
                    }
                    q += 1;
                }
                left = left + d;
                proof {
                    vstd::arithmetic::div_mod::lemma_mod_add_multiples_vanish((left - d) as int, d as int);
                }
            }
            top = top + d;
            proof {
                vstd::arithmetic::div_mod::lemma_mod_add_multiples_vanish((top - d) as int, d as int);
            }
        }
        proof {
            assert forall|q: int| 0 <= q < h implies #[trigger] image_view(&out)[q] =~= target[q] by {
                assert forall|c: int| 0 <= c < img[q].len() implies image_view(&out)[q][c] == target[q][c] by {}
            }
            assert(image_view(&out) =~= target);
        }
        out
    }
}


// ── Colour reduction ──────────────────────────────────────────────────────────

/// Whether `i` is the first index of `palette` closest to `px` by squared
/// distance.
pub open spec fn is_first_closest(palette: Seq<[u8; 3]>, px: [u8; 3], i: int) -> bool {
    &&& 0 <= i < palette.len()
    &&& forall|j: int| 0 <= j < palette.len() ==> sq_dist(px, palette[i]) <= #[trigger] sq_dist(px, palette[j])
    &&& forall|j: int| 0 <= j < i ==> sq_dist(px, palette[i]) < #[trigger] sq_dist(px, palette[j])
}

/// The first index of `palette` closest to `px`.
pub open spec fn closest_index(palette: Seq<[u8; 3]>, px: [u8; 3]) -> int {
    choose|i: int| is_first_closest(palette, px, i)
}

/// At most one index is the first closest one.
pub proof fn lemma_first_closest_unique(palette: Seq<[u8; 3]>, px: [u8; 3], a: int, b: int)
    requires
        is_first_closest(palette, px, a),
        is_first_closest(palette, px, b),
    ensures
        a == b,
{
    if a < b {
        assert(sq_dist(px, palette[b]) < sq_dist(px, palette[a]));
    } else if b < a {
        assert(sq_dist(px, palette[a]) < sq_dist(px, palette[b]));
    }
}

/// Finds the first palette index closest to `px`.
fn closest(palette: &[[u8; 3]], px: [u8; 3]) -> (i: usize)
    requires
        palette@.len() > 0,
    ensures
        is_first_closest(palette@, px, i as int),
        i == closest_index(palette@, px),
{
    let mut best: usize = 0;
    let mut best_d = color_dist_sq(px, palette[0]);
    let mut j: usize = 1;
    while j < palette.len()
        invariant
            1 <= j <= palette@.len(),
            best < j,
            best_d == sq_dist(px, palette@[best as int]),
            forall|t: int| 0 <= t < j ==> sq_dist(px, palette@[best as int]) <= #[trigger] sq_dist(px, palette@[t]),
            forall|t: int| 0 <= t < best ==> sq_dist(px, palette@[best as int]) < #[trigger] sq_dist(px, palette@[t]),
        decreases palette@.len() - j,
    {
        let d = color_dist_sq(px, palette[j]);
        if d < best_d {
            best = j;
            best_d = d;
        }
        j += 1;
    }
    proof {
        assert(is_first_closest(palette@, px, best as int));
        lemma_first_closest_unique(palette@, px, closest_index(palette@, px), best as int);
    }
    best
}

/// The image with every pixel replaced by its closest palette colour (the
/// first on ties); unchanged for an empty palette.
pub open spec fn reduced(img: Seq<Seq<[u8; 3]>>, palette: Seq<[u8; 3]>) -> Seq<Seq<[u8; 3]>> {
    if palette.len() == 0 {
        img
    } else {
        Seq::new(img.len(), |r: int| img[r].map_values(|px: [u8; 3]| palette[closest_index(palette, px)]))
    }
}

/// The pixels of an image, row after row.
pub open spec fn flat_pixels(img: Seq<Seq<[u8; 3]>>) -> Seq<[u8; 3]>
    decreases img.len(),
{
    if img.len() == 0 {
        Seq::empty()
    } else {
        flat_pixels(img.drop_last()) + img.last()
    }
}

/// How many of `pixels` have centre `i` as their closest centre.
pub open spec fn cluster_count(centres: Seq<[u8; 3]>, pixels: Seq<[u8; 3]>, i: int) -> int
    decreases pixels.len(),
{
    if pixels.len() == 0 {
        0
    } else {
        cluster_count(centres, pixels.drop_last(), i) + if closest_index(centres, pixels.last()) == i {
            1int
        } else {
            0int
        }
    }
}

/// The sum of channel `k` over the pixels whose closest centre is `i`.
pub open spec fn cluster_sum(centres: Seq<[u8; 3]>, pixels: Seq<[u8; 3]>, i: int, k: int) -> int
    decreases pixels.len(),
{
    if pixels.len() == 0 {
        0
    } else {
        cluster_sum(centres, pixels.drop_last(), i, k) + if closest_index(centres, pixels.last()) == i {
            pixels.last()[k] as int
        } else {
            0int
        }
    }
}

/// One k-means step: every centre moves to the mean of the pixels closest
/// to it (rounded down per channel); a centre no pixel chose stays.
pub open spec fn kmeans_step(centres: Seq<[u8; 3]>, pixels: Seq<[u8; 3]>) -> Seq<[u8; 3]> {
    Seq::new(
        centres.len(),
        |i: int|
            if cluster_count(centres, pixels, i) == 0 {
                centres[i]
            } else {
                [
                    (cluster_sum(centres, pixels, i, 0) / cluster_count(centres, pixels, i)) as u8,
                    (cluster_sum(centres, pixels, i, 1) / cluster_count(centres, pixels, i)) as u8,
                    (cluster_sum(centres, pixels, i, 2) / cluster_count(centres, pixels, i)) as u8,
                ]
            },
    )
}

/// `n` k-means steps from `centres`.
pub open spec fn kmeans_iter(centres: Seq<[u8; 3]>, pixels: Seq<[u8; 3]>, n: nat) -> Seq<[u8; 3]>
    decreases n,
{
    if n == 0 {
        centres
    } else {
        kmeans_step(kmeans_iter(centres, pixels, (n - 1) as nat), pixels)
    }
}

/// The number of centres asked for: `n`, or 1 for 0.
pub open spec fn centre_count(n: u8) -> int {
    if n == 0 {
        1
    } else {
        n as int
    }
}

/// The initial centres: `k` pixels picked evenly across the first
/// `h × w` pixels in row-major order.
pub open spec fn initial_centres(img: Seq<Seq<[u8; 3]>>, k: int) -> Seq<[u8; 3]> {
    let w = img_width(img);
    let total = img.len() * w;
    Seq::new(
        k as nat,
        |i: int|
            {
                let idx = min(i * total / k, total - 1);
                img[idx / w][idx % w]
            },
    )
}

/// The palette `extract_palette` gives: `k` black entries for an image
/// without pixels, else 20 k-means steps from the initial centres.
pub open spec fn extracted_palette(img: Seq<Seq<[u8; 3]>>, n: u8) -> Seq<[u8; 3]> {
    let k = centre_count(n);
    if img.len() == 0 || img_width(img) == 0 {
        Seq::new(k as nat, |i: int| [0u8, 0u8, 0u8])
    } else {
        kmeans_iter(initial_centres(img, k), flat_pixels(img), 20)
    }
}

/// The machine limits `extract_palette` works within.
pub open spec fn extract_fits(img: Seq<Seq<[u8; 3]>>, n: u8) -> bool {
    &&& rows_cover_width(img)
    &&& img.len() * img_width(img) <= usize::MAX
    &&& (centre_count(n) - 1) * (img.len() * img_width(img)) <= usize::MAX
    &&& 255 * flat_pixels(img).len() <= u64::MAX
}

/// A fixed point of the k-means step stays fixed.
pub proof fn lemma_kmeans_fixed(centres: Seq<[u8; 3]>, pixels: Seq<[u8; 3]>, m: nat, n: nat)
    requires
        m <= n,
        kmeans_step(kmeans_iter(centres, pixels, m), pixels) == kmeans_iter(centres, pixels, m),
    ensures
        kmeans_iter(centres, pixels, n) == kmeans_iter(centres, pixels, m),
    decreases n - m,
{
    if n > m {
        lemma_kmeans_fixed(centres, pixels, m, (n - 1) as nat);
    }
}

proof fn lemma_cluster_bounds(centres: Seq<[u8; 3]>, pixels: Seq<[u8; 3]>, i: int, k: int)
    requires
        0 <= k < 3,
    ensures
        0 <= cluster_count(centres, pixels, i) <= pixels.len(),
        0 <= cluster_sum(centres, pixels, i, k) <= 255 * cluster_count(centres, pixels, i),
    decreases pixels.len(),
{
    if pixels.len() > 0 {
        lemma_cluster_bounds(centres, pixels.drop_last(), i, k);
    }
}

proof fn lemma_flat_pixels_push(img: Seq<Seq<[u8; 3]>>, r: int)
    requires
        0 <= r < img.len(),
    ensures
        flat_pixels(img.take(r + 1)) == flat_pixels(img.take(r)) + img[r],
{
    assert(img.take(r + 1).drop_last() =~= img.take(r));
}

/// The pixels of an image, row after row, as a vector.
fn flatten(image: &Vec<Vec<[u8; 3]>>) -> (pixels: Vec<[u8; 3]>)
    ensures
        pixels@ == flat_pixels(image_view(image)),
{
    let ghost img = image_view(image);
    let mut pixels: Vec<[u8; 3]> = Vec::new();
    let mut r: usize = 0;
    while r < image.len()
        invariant
            r <= img.len(),
            img == image_view(image),
            pixels@ == flat_pixels(img.take(r as int)),
        decreases img.len() - r,
    {
        let ghost before = pixels@;
        let mut c: usize = 0;
        while c < image[r].len()
            invariant
                r < img.len(),
                img == image_view(image),
                c <= img[r as int].len(),
                img[r as int] == image@[r as int]@,
                pixels@ == before + img[r as int].take(c as int),
            decreases img[r as int].len() - c,
        {
            pixels.push(image[r][c]);
            c += 1;
            proof {
                assert(pixels@ =~= before + img[r as int].take(c as int));
            }
        }
        proof {
            assert(img[r as int].take(c as int) =~= img[r as int]);
            lemma_flat_pixels_push(img, r as int);
        }
        r += 1;
    }
    proof {
        assert(img.take(img.len() as int) =~= img);
    }
    pixels
}

/// One k-means step over `pixels`.
fn kmeans_step_exec(centres: &Vec<[u8; 3]>, pixels: &Vec<[u8; 3]>) -> (next: Vec<[u8; 3]>)
    requires
        centres@.len() > 0,
        255 * pixels@.len() <= u64::MAX,
    ensures
        next@ == kmeans_step(centres@, pixels@),
{
    let k = centres.len();
    let mut sum_r: Vec<u64> = Vec::new();
    let mut sum_g: Vec<u64> = Vec::new();
    let mut sum_b: Vec<u64> = Vec::new();
    let mut counts: Vec<u64> = Vec::new();
    let mut i: usize = 0;
    while i < k
        invariant
            k == centres@.len(),
            i <= k,
            sum_r@.len() == i,
            sum_g@.len() == i,
            sum_b@.len() == i,
            counts@.len() == i,
            forall|t: int| 0 <= t < i ==> sum_r@[t] == 0 && sum_g@[t] == 0 && sum_b@[t] == 0 && counts@[t] == 0,
        decreases k - i,
    {
        sum_r.push(0);
        sum_g.push(0);
        sum_b.push(0);
        counts.push(0);
        i += 1;
    }
    let mut j: usize = 0;
    while j < pixels.len()
        invariant
            k == centres@.len(),
            k > 0,
            j <= pixels@.len(),
            255 * pixels@.len() <= u64::MAX,
            sum_r@.len() == k,
            sum_g@.len() == k,
            sum_b@.len() == k,
            counts@.len() == k,
            forall|t: int|
                0 <= t < k ==> {
                    &&& #[trigger] counts@[t] == cluster_count(centres@, pixels@.take(j as int), t)
                    &&& sum_r@[t] == cluster_sum(centres@, pixels@.take(j as int), t, 0)
                    &&& sum_g@[t] == cluster_sum(centres@, pixels@.take(j as int), t, 1)
                    &&& sum_b@[t] == cluster_sum(centres@, pixels@.take(j as int), t, 2)
                },
        decreases pixels@.len() - j,
    {
        let px = pixels[j];
        let ci = closest(centres.as_slice(), px);
        proof {
            let before = pixels@.take(j as int);
            let after = pixels@.take(j + 1);
            assert(after.drop_last() =~= before);
            assert(after.last() == px);
            lemma_cluster_bounds(centres@, before, ci as int, 0);
            lemma_cluster_bounds(centres@, before, ci as int, 1);
            lemma_cluster_bounds(centres@, before, ci as int, 2);
            assert(counts@[ci as int] == cluster_count(centres@, before, ci as int));
            assert(before.len() == j);
            assert(sum_r@[ci as int] + 255 <= 255 * pixels@.len());
            assert(sum_g@[ci as int] + 255 <= 255 * pixels@.len());
            assert(sum_b@[ci as int] + 255 <= 255 * pixels@.len());
        }
        let ghost (o_r, o_g, o_b, o_c) = (sum_r@, sum_g@, sum_b@, counts@);
        let cr = sum_r[ci];
        sum_r.set(ci, cr + px[0] as u64);
        let cg = sum_g[ci];
        sum_g.set(ci, cg + px[1] as u64);
        let cb = sum_b[ci];
        sum_b.set(ci, cb + px[2] as u64);
        let cc = counts[ci];
        counts.set(ci, cc + 1);
        j += 1;
        proof {
            let after = pixels@.take(j as int);
            assert forall|t: int| 0 <= t < k implies {
                &&& #[trigger] counts@[t] == cluster_count(centres@, after, t)
                &&& sum_r@[t] == cluster_sum(centres@, after, t, 0)
                &&& sum_g@[t] == cluster_sum(centres@, after, t, 1)
                &&& sum_b@[t] == cluster_sum(centres@, after, t, 2)
            } by {
                assert(after.drop_last() =~= pixels@.take(j - 1));
                assert(after.last() == px);
                assert(o_c[t] == cluster_count(centres@, pixels@.take(j - 1), t));
                assert(cluster_count(centres@, after, t) == cluster_count(centres@, after.drop_last(), t) + if closest_index(centres@, px) == t { 1int } else { 0int });
            }
        }
    }
    proof {
        assert(pixels@.take(pixels@.len() as int) =~= pixels@);
    }
    let mut next: Vec<[u8; 3]> = Vec::new();
    let mut t: usize = 0;
    while t < k
        invariant
            k == centres@.len(),
            t <= k,
            sum_r@.len() == k,
            sum_g@.len() == k,
            sum_b@.len() == k,
            counts@.len() == k,
            forall|q: int|
                0 <= q < k ==> {
                    &&& #[trigger] counts@[q] == cluster_count(centres@, pixels@, q)
                    &&& sum_r@[q] == cluster_sum(centres@, pixels@, q, 0)
                    &&& sum_g@[q] == cluster_sum(centres@, pixels@, q, 1)
                    &&& sum_b@[q] == cluster_sum(centres@, pixels@, q, 2)
                },
            next@.len() == t,
            forall|q: int| 0 <= q < t ==> #[trigger] next@[q] == kmeans_step(centres@, pixels@)[q],
        decreases k - t,
    {
        let c = counts[t];
        if c == 0 {
            next.push(centres[t]);
        } else {
            proof {
                lemma_cluster_bounds(centres@, pixels@, t as int, 0);
                lemma_cluster_bounds(centres@, pixels@, t as int, 1);
                lemma_cluster_bounds(centres@, pixels@, t as int, 2);
                let n = c as int;
                assert((sum_r@[t as int] as int) / n <= 255) by (nonlinear_arith)
                    requires 0 <= sum_r@[t as int] <= 255 * n, n > 0;
                assert((sum_g@[t as int] as int) / n <= 255) by (nonlinear_arith)
                    requires 0 <= sum_g@[t as int] <= 255 * n, n > 0;
                assert((sum_b@[t as int] as int) / n <= 255) by (nonlinear_arith)
                    requires 0 <= sum_b@[t as int] <= 255 * n, n > 0;
            }
            let v = [(sum_r[t] / c) as u8, (sum_g[t] / c) as u8, (sum_b[t] / c) as u8];
            next.push(v);
            proof {
                assert(v =~= kmeans_step(centres@, pixels@)[t as int]);
            }
        }
        t += 1;
    }
    proof {
        assert(next@ =~= kmeans_step(centres@, pixels@));
    }
    next
}

/// Whether two colour lists are equal.
fn same_colors(a: &Vec<[u8; 3]>, b: &Vec<[u8; 3]>) -> (eq: bool)
    ensures
        eq == (a@ == b@),
{
    if a.len() != b.len() {
        return false;
    }
    let mut i: usize = 0;
    while i < a.len()
        invariant
            a@.len() == b@.len(),
            i <= a@.len(),
            forall|t: int| 0 <= t < i ==> a@[t] == b@[t],
        decreases a@.len() - i,
    {
        let x = a[i];
        let y = b[i];
        if x[0] != y[0] || x[1] != y[1] || x[2] != y[2] {
            proof {
                assert(a@[i as int] != b@[i as int]);
            }
            return false;
        }
        proof {
            assert(x =~= y);
        }
        i += 1;
    }
    proof {
        assert(a@ =~= b@);
    }
    true
}

impl ColorReduction {
    /// A reducer for `palette_size` colours.
    pub fn new(palette_size: u8) -> (cr: Self)
        ensures
            cr.palette_size == palette_size,
    {
        ColorReduction { palette_size }
    }

    /// Maps every pixel to its closest colour in `palette` (the first such
    /// colour on ties); an empty palette leaves the image as it is.
    pub fn reduce(&self, image: &Vec<Vec<[u8; 3]>>, palette: &[[u8; 3]]) -> (out: Vec<Vec<[u8; 3]>>)
        ensures
            image_view(&out) == reduced(image_view(image), palette@),
    {
        if palette.len() == 0 {
            return copy_image(image);
        }
        let ghost img = image_view(image);
        let mut out: Vec<Vec<[u8; 3]>> = Vec::new();
        let mut r: usize = 0;
        while r < image.len()
            invariant
                palette@.len() > 0,
                r <= img.len(),
                img == image_view(image),
                out@.len() == r,
                forall|q: int| 0 <= q < r ==> (#[trigger] out@[q])@ == reduced(img, palette@)[q],
            decreases img.len() - r,
        {
            let mut line: Vec<[u8; 3]> = Vec::new();
            let mut c: usize = 0;
            while c < image[r].len()
                invariant
                    palette@.len() > 0,
                    r < img.len(),
                    img == image_view(image),
                    img[r as int] == image@[r as int]@,
                    c <= img[r as int].len(),
                    line@.len() == c,
                    forall|t: int|
                        0 <= t < c ==> #[trigger] line@[t] == palette@[closest_index(palette@, img[r as int][t])],
                decreases img[r as int].len() - c,
            {
                let i = closest(palette, image[r][c]);
                line.push(palette[i]);
                c += 1;
            }
            proof {
                assert(line@ =~= reduced(img, palette@)[r as int]);
            }
            out.push(line);
            r += 1;
        }
        proof {
            assert(image_view(&out) =~= reduced(img, palette@));
        }
        out
    }

    /// Extracts a palette of `max(n, 1)` colours by k-means: the centres
    /// start at pixels picked evenly across the image and take 20 steps (a
    /// step that changes nothing ends the iteration early, which gives the
    /// same centres).
    pub fn extract_palette(&self, image: &Vec<Vec<[u8; 3]>>, n: u8) -> (centres: Vec<[u8; 3]>)
        requires
            extract_fits(image_view(image), n),
        ensures
            centres@ == extracted_palette(image_view(image), n),
    {
        let ghost img = image_view(image);
        let k: usize = if n == 0 {
            1
        } else {
            n as usize
        };
        let h = image.len();
        if h == 0 || image[0].len() == 0 {
            let mut out: Vec<[u8; 3]> = Vec::new();
            let mut i: usize = 0;
            while i < k
                invariant
                    i <= k,
                    out@.len() == i,
                    forall|t: int| 0 <= t < i ==> #[trigger] out@[t] == [0u8, 0u8, 0u8],
                decreases k - i,
            {
                out.push([0, 0, 0]);
                i += 1;
            }
            proof {
                assert(out@ =~= extracted_palette(img, n));
            }
            return out;
        }
        let w = image[0].len();
        let total = h * w;
        proof {
            assert(total == img.len() * img_width(img));
            assert(total >= 1) by (nonlinear_arith)
                requires h >= 1, w >= 1, total == h * w;
        }
        let mut centres: Vec<[u8; 3]> = Vec::new();
        let mut i: usize = 0;
        while i < k
            invariant
                k == centre_count(n),
                1 <= k <= 255,
                i <= k,
                h == img.len(),
                w == img_width(img),
                w >= 1,
                total == h * w,
                total >= 1,
                img == image_view(image),
                extract_fits(img, n),
                centres@.len() == i,
                forall|t: int| 0 <= t < i ==> #[trigger] centres@[t] == initial_centres(img, k as int)[t],
            decreases k - i,
        {
            proof {
                assert(i * total <= (k - 1) * total) by (nonlinear_arith)
                    requires i <= k - 1, total >= 0;
            }
            let q = i * total / k;
            let idx = if q < total - 1 {
                q
            } else {
                total - 1
            };
            proof {
                assert(idx / w < h) by (nonlinear_arith)
                    requires 0 <= idx < total, total == h * w, w >= 1;
                assert(idx % w < w) by (nonlinear_arith)
                    requires w >= 1;
                assert(img[(idx / w) as int].len() >= w);
                assert(img[(idx / w) as int] == image@[(idx / w) as int]@);
            }
            centres.push(image[idx / w][idx % w]);
            i += 1;
        }
        proof {
            assert(centres@ =~= initial_centres(img, k as int));
        }
        let pixels = flatten(image);
        let ghost start = centres@;
        let ghost px = pixels@;
        let mut it: usize = 0;
        while it < 20
            invariant_except_break
                it <= 20,
                centres@.len() == k,
                k >= 1,
                px == pixels@,
                255 * px.len() <= u64::MAX,
                centres@ == kmeans_iter(start, px, it as nat),
            ensures
                centres@ == kmeans_iter(start, px, 20),
            decreases 20 - it,
        {
            let next = kmeans_step_exec(&centres, &pixels);
            if same_colors(&next, &centres) {
                proof {
                    lemma_kmeans_fixed(start, px, it as nat, 20);
                }
                break;
            }
            centres = next;
            it += 1;
        }
        centres
    }
}

} // verus!

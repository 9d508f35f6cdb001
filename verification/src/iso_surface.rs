//! Marching squares: the case of a cell, the edges its contour crosses,
//! and the rasterisation of contour segments onto pixel and character
//! grids.

use vstd::prelude::*;
use crate::line::{abs, as_int_points, in_line_range, lemma_line_in_box, line_points, walk_line};

verus! {

/// The points of the Bresenham line from `(x0, y0)` to `(x1, y1)`.
pub fn bresenham(x0: isize, y0: isize, x1: isize, y1: isize) -> (pts: Vec<(isize, isize)>)
    requires
        in_line_range(x0 as int),
        in_line_range(y0 as int),
        in_line_range(x1 as int),
        in_line_range(y1 as int),
    ensures
        pts@.map_values(|p: (isize, isize)| (p.0 as int, p.1 as int)) == line_points(
            x0 as int,
            y0 as int,
            x1 as int,
            y1 as int,
            false,
        ),
{
    let wide = walk_line(x0 as i64, y0 as i64, x1 as i64, y1 as i64, false);
    let ghost full = line_points(x0 as int, y0 as int, x1 as int, y1 as int, false);
    proof {
        lemma_line_in_box(x0 as int, y0 as int, x1 as int, y1 as int, false);
    }
    let mut pts: Vec<(isize, isize)> = Vec::new();
    let mut i: usize = 0;
    while i < wide.len()
        invariant
            i <= wide@.len(),
            as_int_points(wide@) == full,
            full == line_points(x0 as int, y0 as int, x1 as int, y1 as int, false),
            forall|j: int|
                0 <= j < full.len() ==> {
                    let p = #[trigger] full[j];
                    &&& (x0 <= p.0 <= x1 || x1 <= p.0 <= x0)
                    &&& (y0 <= p.1 <= y1 || y1 <= p.1 <= y0)
                },
            pts@.len() == i,
            forall|j: int| 0 <= j < i ==> (#[trigger] pts@[j]).0 == full[j].0 && pts@[j].1 == full[j].1,
        decreases wide@.len() - i,
    {
        let (a, b) = wide[i];
        proof {
            assert(full[i as int] == (a as int, b as int));
        }
        pts.push((a as isize, b as isize));
        i += 1;
    }
    proof {
        assert(pts@.map_values(|p: (isize, isize)| (p.0 as int, p.1 as int)) =~= full);
    }
    pts
}


// ── Marching squares ──────────────────────────────────────────────────────────

/// The marching-squares case of a cell: bit `k` is set when corner `k` lies
/// on or above the level (corners 0 bottom-left, 1 bottom-right, 2 top-right,
/// 3 top-left).
pub open spec fn case_index(b0: bool, b1: bool, b2: bool, b3: bool) -> int {
    (if b0 {
        1int
    } else {
        0int
    }) + (if b1 {
        2int
    } else {
        0int
    }) + (if b2 {
        4int
    } else {
        0int
    }) + (if b3 {
        8int
    } else {
        0int
    })
}

/// The case of a cell from which of its corners are on or above the level.
pub fn cell_case(b0: bool, b1: bool, b2: bool, b3: bool) -> (c: u8)
    ensures
        c == case_index(b0, b1, b2, b3),
{
    let mut c: u8 = 0;
    if b0 {
        c = c + 1;
    }
    if b1 {
        c = c + 2;
    }
    if b2 {
        c = c + 4;
    }
    if b3 {
        c = c + 8;
    }
    c
}

/// The contour segments of a cell as pairs of the edges they join (edge 0
/// bottom, 1 right, 2 top, 3 left); the two saddle cases are resolved by
/// whether the cell centre is on or above the level.
pub open spec fn case_edges(case: int, center_above: bool) -> Seq<(u8, u8)> {
    if case == 1 {
        seq![(0u8, 3u8)]
    } else if case == 2 {
        seq![(0u8, 1u8)]
    } else if case == 3 {
        seq![(1u8, 3u8)]
    } else if case == 4 {
        seq![(1u8, 2u8)]
    } else if case == 5 {
        if center_above {
            seq![(0u8, 1u8), (2u8, 3u8)]
        } else {
            seq![(0u8, 3u8), (1u8, 2u8)]
        }
    } else if case == 6 {
        seq![(0u8, 2u8)]
    } else if case == 7 {
        seq![(2u8, 3u8)]
    } else if case == 8 {
        seq![(2u8, 3u8)]
    } else if case == 9 {
        seq![(0u8, 2u8)]
    } else if case == 10 {
        if center_above {
            seq![(0u8, 3u8), (1u8, 2u8)]
        } else {
            seq![(0u8, 1u8), (2u8, 3u8)]
        }
    } else if case == 11 {
        seq![(1u8, 2u8)]
    } else if case == 12 {
        seq![(1u8, 3u8)]
    } else if case == 13 {
        seq![(0u8, 1u8)]
    } else if case == 14 {
        seq![(0u8, 3u8)]
    } else {
        Seq::empty()
    }
}

/// The contour segments of a cell of the given case, as edge pairs.
pub fn contour_edges(case: u8, center_above: bool) -> (v: Vec<(u8, u8)>)
    ensures
        v@ == case_edges(case as int, center_above),
{
    let mut v: Vec<(u8, u8)> = Vec::new();
    if case == 1 {
        v.push((0, 3));
    } else if case == 2 {
        v.push((0, 1));
    } else if case == 3 {
        v.push((1, 3));
    } else if case == 4 {
        v.push((1, 2));
    } else if case == 5 {
        if center_above {
            v.push((0, 1));
            v.push((2, 3));
        } else {
            v.push((0, 3));
            v.push((1, 2));
        }
    } else if case == 6 {
        v.push((0, 2));
    } else if case == 7 {
        v.push((2, 3));
    } else if case == 8 {
        v.push((2, 3));
    } else if case == 9 {
        v.push((0, 2));
    } else if case == 10 {
        if center_above {
            v.push((0, 3));
            v.push((1, 2));
        } else {
            v.push((0, 1));
            v.push((2, 3));
        }
    } else if case == 11 {
        v.push((1, 2));
    } else if case == 12 {
        v.push((1, 3));
    } else if case == 13 {
        v.push((0, 1));
    } else if case == 14 {
        v.push((0, 3));
    }
    proof {
        assert(v@ =~= case_edges(case as int, center_above));
    }
    v
}

/// How many segment ends lie on edge `k`.
pub open spec fn edge_uses(segs: Seq<(u8, u8)>, k: int) -> int
    decreases segs.len(),
{
    if segs.len() == 0 {
        0
    } else {
        edge_uses(segs.drop_last(), k) + (if segs.last().0 == k {
            1int
        } else {
            0int
        }) + (if segs.last().1 == k {
            1int
        } else {
            0int
        })
    }
}

/// Whether the level crosses edge `k` of a cell of the given case: its two
/// corners (`k` and `k + 1` mod 4) lie on different sides.
pub open spec fn crossed(b: Seq<bool>, k: int) -> bool {
    b[k] != b[(k + 1) % 4]
}

/// Every edge the level crosses carries exactly one segment end, and no
/// other edge carries any, whichever way a saddle is resolved.
pub proof fn lemma_case_edges_match_crossings(b0: bool, b1: bool, b2: bool, b3: bool, center_above: bool, k: int)
    requires
        0 <= k < 4,
    ensures
        edge_uses(case_edges(case_index(b0, b1, b2, b3), center_above), k) == if crossed(seq![b0, b1, b2, b3], k) {
            1int
        } else {
            0int
        },
{
    let segs = case_edges(case_index(b0, b1, b2, b3), center_above);
    reveal_with_fuel(edge_uses, 3);
    assert(segs.len() <= 2);
    if segs.len() == 2 {
        assert(segs.drop_last().drop_last() =~= Seq::<(u8, u8)>::empty());
    } else if segs.len() == 1 {
        assert(segs.drop_last() =~= Seq::<(u8, u8)>::empty());
    }
}


// ── Grids ─────────────────────────────────────────────────────────────────────

/// A grid as its rows.
pub open spec fn grid_view<T>(g: &Vec<Vec<T>>) -> Seq<Seq<T>> {
    Seq::new(g@.len(), |r: int| g@[r]@)
}

/// Whether `g` has `h` rows of `w` cells.
pub open spec fn is_rect<T>(g: Seq<Seq<T>>, w: int, h: int) -> bool {
    g.len() == h && forall|r: int| 0 <= r < h ==> #[trigger] g[r].len() == w
}

/// A `w × h` grid filled with `v`.
pub open spec fn filled<T>(w: nat, h: nat, v: T) -> Seq<Seq<T>> {
    Seq::new(h, |r: int| Seq::new(w, |c: int| v))
}

/// `g` with cell `p` (column, row) set to `v` when it lies in the grid.
pub open spec fn put<T>(g: Seq<Seq<T>>, p: (int, int), w: int, h: int, v: T) -> Seq<Seq<T>> {
    if 0 <= p.0 < w && 0 <= p.1 < h {
        g.update(p.1, g[p.1].update(p.0, v))
    } else {
        g
    }
}

/// `g` with every point of `pts` set to `v`, in order.
pub open spec fn put_all<T>(g: Seq<Seq<T>>, pts: Seq<(int, int)>, w: int, h: int, v: T) -> Seq<Seq<T>>
    decreases pts.len(),
{
    if pts.len() == 0 {
        g
    } else {
        put(put_all(g, pts.drop_last(), w, h, v), pts.last(), w, h, v)
    }
}

proof fn lemma_put_all_rect<T>(g: Seq<Seq<T>>, pts: Seq<(int, int)>, w: int, h: int, v: T)
    requires
        is_rect(g, w, h),
    ensures
        is_rect(put_all(g, pts, w, h, v), w, h),
    decreases pts.len(),
{
    if pts.len() > 0 {
        lemma_put_all_rect(g, pts.drop_last(), w, h, v);
        let g0 = put_all(g, pts.drop_last(), w, h, v);
        let p = pts.last();
        assert forall|r: int| 0 <= r < h implies #[trigger] put(g0, p, w, h, v)[r].len() == w by {
            assert(g0[r].len() == w);
        }
    }
}

/// A `w × h` grid filled with `v`.
pub(crate) fn fill_grid<T: Copy>(w: usize, h: usize, v: T) -> (g: Vec<Vec<T>>)
    ensures
        grid_view(&g) == filled(w as nat, h as nat, v),
{
    let mut g: Vec<Vec<T>> = Vec::new();
    let mut r: usize = 0;
    while r < h
        invariant
            r <= h,
            g@.len() == r,
            forall|k: int| 0 <= k < r ==> (#[trigger] g@[k])@ == Seq::new(w as nat, |c: int| v),
        decreases h - r,
    {
        let mut row: Vec<T> = Vec::new();
        let mut c: usize = 0;
        while c < w
            invariant
                c <= w,
                row@ == Seq::new(c as nat, |k: int| v),
            decreases w - c,
        {
            row.push(v);
            c += 1;
            proof {
                assert(row@ =~= Seq::new(c as nat, |k: int| v));
            }
        }
        g.push(row);
        r += 1;
    }
    proof {
        assert(grid_view(&g) =~= filled(w as nat, h as nat, v));
    }
    g
}

/// Sets every point of `pts` that lies in the `w × h` grid to `v`.
fn put_points<T: Copy>(g: &mut Vec<Vec<T>>, pts: &Vec<(isize, isize)>, w: usize, h: usize, v: T)
    requires
        is_rect(grid_view(old(g)), w as int, h as int),
    ensures
        grid_view(final(g)) == put_all(
            grid_view(old(g)),
            pts@.map_values(|p: (isize, isize)| (p.0 as int, p.1 as int)),
            w as int,
            h as int,
            v,
        ),
        is_rect(grid_view(final(g)), w as int, h as int),
{
    let ghost start = grid_view(g);
    let ghost all = pts@.map_values(|p: (isize, isize)| (p.0 as int, p.1 as int));
    let mut i: usize = 0;
    while i < pts.len()
        invariant
            i <= pts@.len(),
            all == pts@.map_values(|p: (isize, isize)| (p.0 as int, p.1 as int)),
            is_rect(start, w as int, h as int),
            grid_view(g) == put_all(start, all.take(i as int), w as int, h as int, v),
            is_rect(grid_view(g), w as int, h as int),
        decreases pts@.len() - i,
    {
        let (x, y) = pts[i];
        let ghost before = grid_view(g);
        proof {
            assert(all.take(i + 1).drop_last() =~= all.take(i as int));
            assert(all.take(i + 1).last() == (x as int, y as int));
        }
        if x >= 0 && y >= 0 && (x as usize) < w && (y as usize) < h {
            let xu = x as usize;
            let yu = y as usize;
            proof {
                assert(before[yu as int] == g@[yu as int]@);
            }
            let mut row: Vec<T> = Vec::new();
            g.set_and_swap(yu, &mut row);
            row.set(xu, v);
            g.set(yu, row);
            proof {
                assert(grid_view(g) =~= put(before, (x as int, y as int), w as int, h as int, v));
            }
        }
        proof {
            assert(grid_view(g) =~= put(before, (x as int, y as int), w as int, h as int, v));
            lemma_put_all_rect(start, all.take(i + 1), w as int, h as int, v);
        }
        i += 1;
    }
    proof {
        assert(all.take(pts@.len() as int) =~= all);
    }
}

/// Whether every end point of every segment is in the walkable range.
pub open spec fn ends_in_range(x0: isize, y0: isize, x1: isize, y1: isize) -> bool {
    in_line_range(x0 as int) && in_line_range(y0 as int) && in_line_range(x1 as int) && in_line_range(y1 as int)
}

/// The grid after drawing every coloured segment, in order.
pub open spec fn contours_drawn(
    g: Seq<Seq<[u8; 3]>>,
    segs: Seq<(isize, isize, isize, isize, [u8; 3])>,
    w: int,
    h: int,
) -> Seq<Seq<[u8; 3]>>
    decreases segs.len(),
{
    if segs.len() == 0 {
        g
    } else {
        let s = segs.last();
        put_all(
            contours_drawn(g, segs.drop_last(), w, h),
            line_points(s.0 as int, s.1 as int, s.2 as int, s.3 as int, false),
            w,
            h,
            s.4,
        )
    }
}

proof fn lemma_contours_rect(g: Seq<Seq<[u8; 3]>>, segs: Seq<(isize, isize, isize, isize, [u8; 3])>, w: int, h: int)
    requires
        is_rect(g, w, h),
    ensures
        is_rect(contours_drawn(g, segs, w, h), w, h),
    decreases segs.len(),
{
    if segs.len() > 0 {
        lemma_contours_rect(g, segs.drop_last(), w, h);
        let s = segs.last();
        lemma_put_all_rect(
            contours_drawn(g, segs.drop_last(), w, h),
            line_points(s.0 as int, s.1 as int, s.2 as int, s.3 as int, false),
            w,
            h,
            s.4,
        );
    }
}

/// Draws segments given in pixel coordinates, each in its colour, onto a
/// `w × h` grid of `background`; pixels off the grid are skipped.
pub fn draw_contours(
    segs: &[(isize, isize, isize, isize, [u8; 3])],
    w: usize,
    h: usize,
    background: [u8; 3],
) -> (g: Vec<Vec<[u8; 3]>>)
    requires
        forall|k: int| 0 <= k < segs@.len() ==> ends_in_range((#[trigger] segs@[k]).0, segs@[k].1, segs@[k].2, segs@[k].3),
    ensures
        grid_view(&g) == contours_drawn(filled(w as nat, h as nat, background), segs@, w as int, h as int),
{
    let mut g = fill_grid(w, h, background);
    let ghost start = grid_view(&g);
    proof {
        assert(is_rect(start, w as int, h as int));
    }
    let mut i: usize = 0;
    while i < segs.len()
        invariant
            i <= segs@.len(),
            forall|k: int| 0 <= k < segs@.len() ==> ends_in_range((#[trigger] segs@[k]).0, segs@[k].1, segs@[k].2, segs@[k].3),
            start == filled(w as nat, h as nat, background),
            is_rect(start, w as int, h as int),
            grid_view(&g) == contours_drawn(start, segs@.take(i as int), w as int, h as int),
        decreases segs@.len() - i,
    {
        let (x0, y0, x1, y1, c) = segs[i];
        proof {
            assert(segs@[i as int] == (x0, y0, x1, y1, c));
            assert(segs@.take(i + 1).drop_last() =~= segs@.take(i as int));
            lemma_contours_rect(start, segs@.take(i as int), w as int, h as int);
        }
        let pts = bresenham(x0, y0, x1, y1);
        put_points(&mut g, &pts, w, h, c);
        i += 1;
    }
    proof {
        assert(segs@.take(segs@.len() as int) =~= segs@);
    }
    g
}

/// Whether `b - a` and its negation fit in an `isize`.
pub open spec fn diff_fits(a: isize, b: isize) -> bool {
    isize::MIN < b - a <= isize::MAX
}

/// The character a segment is drawn with: `-` when it runs more across
/// than down, else `|`.
pub open spec fn stroke(x0: isize, y0: isize, x1: isize, y1: isize) -> char {
    if abs(x1 - x0) > abs(y1 - y0) {
        '-'
    } else {
        '|'
    }
}

/// The character grid after drawing every segment, in order.
pub open spec fn ascii_drawn(
    g: Seq<Seq<char>>,
    segs: Seq<(isize, isize, isize, isize)>,
    w: int,
    h: int,
) -> Seq<Seq<char>>
    decreases segs.len(),
{
    if segs.len() == 0 {
        g
    } else {
        let s = segs.last();
        put_all(
            ascii_drawn(g, segs.drop_last(), w, h),
            line_points(s.0 as int, s.1 as int, s.2 as int, s.3 as int, false),
            w,
            h,
            stroke(s.0, s.1, s.2, s.3),
        )
    }
}

proof fn lemma_ascii_rect(g: Seq<Seq<char>>, segs: Seq<(isize, isize, isize, isize)>, w: int, h: int)
    requires
        is_rect(g, w, h),
    ensures
        is_rect(ascii_drawn(g, segs, w, h), w, h),
    decreases segs.len(),
{
    if segs.len() > 0 {
        lemma_ascii_rect(g, segs.drop_last(), w, h);
        let s = segs.last();
        lemma_put_all_rect(
            ascii_drawn(g, segs.drop_last(), w, h),
            line_points(s.0 as int, s.1 as int, s.2 as int, s.3 as int, false),
            w,
            h,
            stroke(s.0, s.1, s.2, s.3),
        );
    }
}

/// Draws segments given in character cells onto a `w × h` grid of `.`,
/// each with `-` or `|` by its slope; cells off the grid are skipped.
pub fn draw_ascii(segs: &[(isize, isize, isize, isize)], w: usize, h: usize) -> (g: Vec<Vec<char>>)
    requires
        forall|k: int| 0 <= k < segs@.len() ==> ends_in_range((#[trigger] segs@[k]).0, segs@[k].1, segs@[k].2, segs@[k].3),
        forall|k: int| 0 <= k < segs@.len() ==> diff_fits((#[trigger] segs@[k]).0, segs@[k].2) && diff_fits(segs@[k].1, segs@[k].3),
    ensures
        grid_view(&g) == ascii_drawn(filled(w as nat, h as nat, '.'), segs@, w as int, h as int),
{
    let mut g = fill_grid(w, h, '.');
    let ghost start = grid_view(&g);
    proof {
        assert(is_rect(start, w as int, h as int));
    }
    let mut i: usize = 0;
    while i < segs.len()
        invariant
            i <= segs@.len(),
            forall|k: int| 0 <= k < segs@.len() ==> ends_in_range((#[trigger] segs@[k]).0, segs@[k].1, segs@[k].2, segs@[k].3),
            forall|k: int| 0 <= k < segs@.len() ==> diff_fits((#[trigger] segs@[k]).0, segs@[k].2) && diff_fits(segs@[k].1, segs@[k].3),
            start == filled(w as nat, h as nat, '.'),
            is_rect(start, w as int, h as int),
            grid_view(&g) == ascii_drawn(start, segs@.take(i as int), w as int, h as int),
        decreases segs@.len() - i,
    {
        let (x0, y0, x1, y1) = segs[i];
        proof {
            assert(segs@[i as int] == (x0, y0, x1, y1));
            assert(segs@.take(i + 1).drop_last() =~= segs@.take(i as int));
            lemma_ascii_rect(start, segs@.take(i as int), w as int, h as int);
        }
        let dx = if x1 > x0 { x1 - x0 } else { x0 - x1 };
        let dy = if y1 > y0 { y1 - y0 } else { y0 - y1 };
        proof {
            assert(dx == abs(x1 - x0) && dy == abs(y1 - y0));
        }
        let ch = if dx > dy { '-' } else { '|' };
        let pts = bresenham(x0, y0, x1, y1);
        put_points(&mut g, &pts, w, h, ch);
        i += 1;
    }
    proof {
        assert(segs@.take(segs@.len() as int) =~= segs@);
    }
    g
}

} // verus!

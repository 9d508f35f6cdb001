//! Strange attractor rendering: the density of points per pixel and the
//! ASCII phase portrait. Integrating the attractors and mapping points to
//! pixels happen in floating point outside this module.

use vstd::prelude::*;
use crate::iso_surface::{fill_grid, filled, grid_view};
use crate::text::push_char;

verus! {

/// Colour palette used when rendering density maps.
#[derive(Debug, Clone, Copy, PartialEq, Eq, Structural)]
pub enum ColorScheme {
    Fire,
    Ice,
    Plasma,
    Viridis,
    Monochrome,
}

/// Renders attractor points that have been mapped to grid cells.
pub struct AttractorRenderer;

/// How many entries of `cells` name cell `(c, r)`.
pub open spec fn hits(cells: Seq<(usize, usize)>, c: int, r: int) -> nat
    decreases cells.len(),
{
    if cells.len() == 0 {
        0
    } else {
        hits(cells.drop_last(), c, r) + if cells.last().0 == c && cells.last().1 == r {
            1nat
        } else {
            0nat
        }
    }
}

/// `n`, or `u32::MAX` when it does not fit.
pub open spec fn saturated(n: nat) -> u32 {
    if n > u32::MAX {
        u32::MAX
    } else {
        n as u32
    }
}

/// The hit count of every cell of a `w × h` grid, row by row.
pub open spec fn density_spec(cells: Seq<(usize, usize)>, w: nat, h: nat) -> Seq<Seq<u32>> {
    Seq::new(h, |r: int| Seq::new(w, |c: int| saturated(hits(cells, c, r))))
}

/// Whether some entry of `cells` names `(c, r)`.
pub open spec fn marked(cells: Seq<(usize, usize)>, c: int, r: int) -> bool {
    exists|k: int| 0 <= k < cells.len() && cells[k].0 == c && cells[k].1 == r
}

/// Rows joined with newlines.
pub open spec fn joined(rows: Seq<Seq<char>>) -> Seq<char>
    decreases rows.len(),
{
    if rows.len() == 0 {
        Seq::empty()
    } else if rows.len() == 1 {
        rows[0]
    } else {
        joined(rows.drop_last()) + seq!['\n'] + rows.last()
    }
}

/// The ASCII portrait: `*` on every marked cell of a `w × h` grid, spaces
/// elsewhere, rows joined with newlines; empty when there are no cells or
/// the grid is empty.
pub open spec fn portrait_spec(cells: Seq<(usize, usize)>, w: nat, h: nat) -> Seq<char> {
    if cells.len() == 0 || w == 0 || h == 0 {
        Seq::empty()
    } else {
        joined(Seq::new(h, |r: int| Seq::new(w, |c: int| if marked(cells, c, r) { '*' } else { ' ' })))
    }
}

impl AttractorRenderer {
    /// Counts the entries of `cells` that fall on each cell of a
    /// `width × height` grid, saturating at `u32::MAX`.
    pub fn density_counts(cells: &[(usize, usize)], width: usize, height: usize) -> (d: Vec<Vec<u32>>)
        requires
            forall|k: int| 0 <= k < cells@.len() ==> (#[trigger] cells@[k]).0 < width && cells@[k].1 < height,
        ensures
            grid_view(&d) == density_spec(cells@, width as nat, height as nat),
    {
        let mut d = fill_grid(width, height, 0u32);
        let mut i: usize = 0;
        proof {
            let none = cells@.take(0);
            assert(none.len() == 0);
            assert forall|r: int, c: int| #[trigger] hits(none, c, r) == 0 by {}
            assert(density_spec(none, width as nat, height as nat) =~~= filled(width as nat, height as nat, 0u32));
        }
        while i < cells.len()
            invariant
                i <= cells@.len(),
                forall|k: int| 0 <= k < cells@.len() ==> (#[trigger] cells@[k]).0 < width && cells@[k].1 < height,
                grid_view(&d) == density_spec(cells@.take(i as int), width as nat, height as nat),
            decreases cells@.len() - i,
        {
            let (c, r) = cells[i];
            let ghost before = grid_view(&d);
            proof {
                assert(cells@[i as int] == (c, r));
                assert(before.len() == d@.len());
                assert(d@.len() == height);
                assert(before[r as int] == d@[r as int]@);
            }
            let mut row: Vec<u32> = Vec::new();
            d.set_and_swap(r, &mut row);
            let v = row[c];
            row.set(c, v.saturating_add(1));
            d.set(r, row);
            proof {
                let prev = cells@.take(i as int);
                let next = cells@.take(i + 1);
                assert(next.drop_last() =~= prev);
                assert(next.last() == (c, r));
                assert forall|rr: int| 0 <= rr < height implies #[trigger] grid_view(&d)[rr].len() == width by {
                    if rr != r {
                        assert(grid_view(&d)[rr] == before[rr]);
                    }
                }
                assert(grid_view(&d) =~~= density_spec(next, width as nat, height as nat)) by {
                    assert forall|rr: int, cc: int| 0 <= rr < height && 0 <= cc < width implies #[trigger] grid_view(&d)[rr][cc]
                        == saturated(hits(next, cc, rr)) by {
                        if rr == r && cc == c {
                            assert(v == saturated(hits(prev, cc, rr)));
                        } else {
                            assert(hits(next, cc, rr) == hits(prev, cc, rr));
                            if rr != r {
                                assert(grid_view(&d)[rr] == before[rr]);
                            }
                        }
                    }
                }
            }
            i += 1;
        }
        proof {
            assert(cells@.take(cells@.len() as int) =~= cells@);
        }
        d
    }

    /// The largest count of a density grid, or 1 when it has no cells.
    pub fn peak_density(d: &Vec<Vec<u32>>) -> (m: u32)
        ensures
            forall|r: int, c: int| 0 <= r < d@.len() && 0 <= c < d@[r]@.len() ==> #[trigger] d@[r]@[c] <= m,
            (exists|r: int, c: int| 0 <= r < d@.len() && 0 <= c < d@[r]@.len() && #[trigger] d@[r]@[c] == m)
                || ((forall|r: int| 0 <= r < d@.len() ==> #[trigger] d@[r]@.len() == 0) && m == 1),
    {
        let mut best: Option<u32> = None;
        let mut r: usize = 0;
        while r < d.len()
            invariant
                r <= d@.len(),
                match best {
                    Some(m) => (forall|rr: int, c: int| 0 <= rr < r && 0 <= c < d@[rr]@.len() ==> #[trigger] d@[rr]@[c] <= m)
                        && exists|rr: int, c: int| 0 <= rr < r && 0 <= c < d@[rr]@.len() && #[trigger] d@[rr]@[c] == m,
                    None => forall|rr: int| 0 <= rr < r ==> #[trigger] d@[rr]@.len() == 0,
                },
            decreases d@.len() - r,
        {
            let row = &d[r];
            let mut c: usize = 0;
            while c < row.len()
                invariant
                    r < d@.len(),
                    row@ == d@[r as int]@,
                    c <= row@.len(),
                    match best {
                        Some(m) => (forall|rr: int, cc: int|
                            (0 <= rr < r && 0 <= cc < d@[rr]@.len() || rr == r && 0 <= cc < c) ==> #[trigger] d@[rr]@[cc] <= m)
                            && exists|rr: int, cc: int|
                            (0 <= rr < r && 0 <= cc < d@[rr]@.len() || rr == r && 0 <= cc < c) && #[trigger] d@[rr]@[cc] == m,
                        None => c == 0 && forall|rr: int| 0 <= rr < r ==> #[trigger] d@[rr]@.len() == 0,
                    },
                decreases row@.len() - c,
            {
                let v = row[c];
                best = match best {
                    Some(m) => if v > m {
                        Some(v)
                    } else {
                        Some(m)
                    },
                    None => Some(v),
                };
                c += 1;
            }
            r += 1;
        }
        match best {
            Some(m) => m,
            None => 1,
        }
    }

    /// The ASCII phase portrait of points mapped to cells of a
    /// `width × height` grid: `*` where a point falls, rows joined with
    /// newlines; empty when there are no points or the grid is empty.
    pub fn ascii_portrait(cells: &[(usize, usize)], width: usize, height: usize) -> (s: String)
        requires
            forall|k: int| 0 <= k < cells@.len() ==> (#[trigger] cells@[k]).0 < width && cells@[k].1 < height,
        ensures
            s@ == portrait_spec(cells@, width as nat, height as nat),
    {
        if cells.len() == 0 || width == 0 || height == 0 {
            return String::new();
        }
        let mut g = fill_grid(width, height, ' ');
        let mut i: usize = 0;
        proof {
            let none = cells@.take(0);
            assert(none.len() == 0);
            assert(grid_view(&g) =~~= Seq::new(
                height as nat,
                |r: int| Seq::new(width as nat, |c: int| if marked(none, c, r) { '*' } else { ' ' }),
            ));
        }
        while i < cells.len()
            invariant
                i <= cells@.len(),
                forall|k: int| 0 <= k < cells@.len() ==> (#[trigger] cells@[k]).0 < width && cells@[k].1 < height,
                grid_view(&g) == Seq::new(
                    height as nat,
                    |r: int| Seq::new(width as nat, |c: int| if marked(cells@.take(i as int), c, r) { '*' } else { ' ' }),
                ),
            decreases cells@.len() - i,
        {
            let (c, r) = cells[i];
            let ghost before = grid_view(&g);
            proof {
                assert(cells@[i as int] == (c, r));
                assert(before.len() == g@.len());
                assert(g@.len() == height);
                assert(before[r as int] == g@[r as int]@);
            }
            let mut row: Vec<char> = Vec::new();
            g.set_and_swap(r, &mut row);
            row.set(c, '*');
            g.set(r, row);
            proof {
                let prev = cells@.take(i as int);
                let next = cells@.take(i + 1);
                assert forall|rr: int, cc: int| 0 <= rr < height && 0 <= cc < width implies #[trigger] grid_view(&g)[rr][cc]
                    == (if marked(next, cc, rr) { '*' } else { ' ' }) by {
                    if marked(prev, cc, rr) {
                        let k = choose|k: int| 0 <= k < prev.len() && prev[k].0 == cc && prev[k].1 == rr;
                        assert(next[k] == prev[k]);
                    }
                    if rr == r && cc == c {
                        assert(next[i as int] == (c, r));
                    } else {
                        if marked(next, cc, rr) {
                            let k = choose|k: int| 0 <= k < next.len() && next[k].0 == cc && next[k].1 == rr;
                            assert(k < i);
                            assert(prev[k] == next[k]);
                        }
                        if rr != r {
                            assert(grid_view(&g)[rr] == before[rr]);
                        }
                    }
                }
                assert forall|rr: int| 0 <= rr < height implies #[trigger] grid_view(&g)[rr].len() == width by {
                    if rr != r {
                        assert(grid_view(&g)[rr] == before[rr]);
                    }
                }
                assert(grid_view(&g) =~~= Seq::new(
                    height as nat,
                    |r: int| Seq::new(width as nat, |c: int| if marked(next, c, r) { '*' } else { ' ' }),
                ));
            }
            i += 1;
        }
        proof {
            assert(cells@.take(cells@.len() as int) =~= cells@);
        }
        let ghost rows = grid_view(&g);
        let mut s = String::new();
        let mut r: usize = 0;
        while r < g.len()
            invariant
                rows == grid_view(&g),
                rows.len() == height,
                height > 0,
                r <= height,
                s@ == joined(rows.take(r as int)),
            decreases height - r,
        {
            if r > 0 {
                push_char(&mut s, '\n');
            }
            let row = &g[r];
            let ghost before = s@;
            let mut c: usize = 0;
            while c < row.len()
                invariant
                    row@ == rows[r as int],
                    c <= row@.len(),
                    s@ == before + row@.take(c as int),
                decreases row@.len() - c,
            {
                push_char(&mut s, row[c]);
                c += 1;
                proof {
                    assert(s@ =~= before + row@.take(c as int));
                }
            }
            proof {
                assert(row@.take(row@.len() as int) =~= row@);
                assert(rows.take(r + 1).drop_last() =~= rows.take(r as int));
                if r == 0 {
                    assert(rows.take(1) =~= seq![rows[0]]);
                    assert(s@ =~= rows[0]);
                } else {
                    assert(s@ =~= joined(rows.take(r as int)) + seq!['\n'] + rows[r as int]);
                }
            }
            r += 1;
        }
        proof {
            assert(rows.take(height as int) =~= rows);
        }
        s
    }
}

} // verus!

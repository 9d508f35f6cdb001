//! Wave Function Collapse: constraint-based procedural generation.
//!
//! The adjacency rules, the grid of possible tiles per cell, collapsing a
//! cell to one tile, constraint propagation (AC-3) and the final tile map
//! with its rendering. Which cell to collapse, and to which tile, is chosen
//! by weighted entropy outside this module.

use vstd::prelude::*;
use std::collections::VecDeque;

verus! {

broadcast use vstd::seq_lib::group_filter_ensures;

// ── Adjacency rules ───────────────────────────────────────────────────────────

/// The direction opposite `dir` (0 north, 1 east, 2 south, 3 west).
pub open spec fn opposite(dir: int) -> int {
    (dir + 2) % 4
}

/// Adjacency rules: `allowed_neighbors[tile][dir]` lists the tiles that may
/// sit next to `tile` in direction `dir` (0 north, 1 east, 2 south, 3 west).
pub struct TileRules {
    pub n_tiles: usize,
    pub allowed_neighbors: Vec<Vec<Vec<usize>>>,
}

/// Rules for `n` tiles that allow nothing.
pub open spec fn empty_rules(n: nat) -> Seq<Seq<Seq<usize>>> {
    Seq::new(n, |t: int| Seq::new(4, |d: int| Seq::<usize>::empty()))
}

/// `m` with `other` added to the list of `tile` in direction `dir`.
pub open spec fn with_neighbor(m: Seq<Seq<Seq<usize>>>, tile: int, dir: int, other: usize) -> Seq<Seq<Seq<usize>>> {
    m.update(tile, m[tile].update(dir, m[tile][dir].push(other)))
}

/// `m` with `b` allowed next to `a` in direction `dir`, and `a` next to `b`
/// in the opposite direction.
pub open spec fn with_pair(m: Seq<Seq<Seq<usize>>>, a: usize, dir: int, b: usize) -> Seq<Seq<Seq<usize>>> {
    with_neighbor(with_neighbor(m, a as int, dir, b), b as int, opposite(dir), a)
}

/// The three-tile rules of `default_rules`: empty (0), wall (1) and floor
/// (2); each tile may sit next to itself, floor next to empty everywhere,
/// and floor east and west of wall.
pub open spec fn default_allowed() -> Seq<Seq<Seq<usize>>> {
    let m = empty_rules(3);
    let m = with_pair(m, 0, 0, 0);
    let m = with_pair(m, 0, 1, 0);
    let m = with_pair(m, 0, 2, 0);
    let m = with_pair(m, 0, 3, 0);
    let m = with_pair(m, 1, 0, 1);
    let m = with_pair(m, 1, 1, 1);
    let m = with_pair(m, 1, 2, 1);
    let m = with_pair(m, 1, 3, 1);
    let m = with_pair(m, 2, 0, 2);
    let m = with_pair(m, 2, 1, 2);
    let m = with_pair(m, 2, 2, 2);
    let m = with_pair(m, 2, 3, 2);
    let m = with_pair(m, 0, 0, 2);
    let m = with_pair(m, 0, 1, 2);
    let m = with_pair(m, 0, 2, 2);
    let m = with_pair(m, 0, 3, 2);
    let m = with_pair(m, 1, 1, 2);
    with_pair(m, 1, 3, 2)
}

impl TileRules {
    /// The lists as sequences: tile, then direction, then neighbours.
    pub open spec fn allowed(&self) -> Seq<Seq<Seq<usize>>> {
        Seq::new(
            self.allowed_neighbors@.len(),
            |t: int|
                Seq::new(
                    self.allowed_neighbors@[t]@.len(),
                    |d: int| self.allowed_neighbors@[t]@[d]@,
                ),
        )
    }

    /// One row of four direction lists per tile.
    pub open spec fn wf(&self) -> bool {
        &&& self.allowed_neighbors@.len() == self.n_tiles
        &&& forall|t: int| 0 <= t < self.n_tiles ==> #[trigger] self.allowed_neighbors@[t]@.len() == 4
    }

    /// Rules for `n_tiles` tiles that allow nothing yet.
    pub fn new(n_tiles: usize) -> (r: Self)
        ensures
            r.wf(),
            r.n_tiles == n_tiles,
            r.allowed() == empty_rules(n_tiles as nat),
    {
        let mut rows: Vec<Vec<Vec<usize>>> = Vec::new();
        let mut i: usize = 0;
        while i < n_tiles
            invariant
                i <= n_tiles,
                rows@.len() == i,
                forall|t: int| #![trigger rows@[t]] 0 <= t < i ==> rows@[t]@.len() == 4 && forall|d: int|
                    0 <= d < 4 ==> (#[trigger] rows@[t]@[d])@.len() == 0,
            decreases n_tiles - i,
        {
            let row: Vec<Vec<usize>> = vec![Vec::new(), Vec::new(), Vec::new(), Vec::new()];
            rows.push(row);
            i += 1;
        }
        let r = TileRules { n_tiles, allowed_neighbors: rows };
        proof {
            assert(r.allowed() =~~= empty_rules(n_tiles as nat));
        }
        r
    }

    /// Adds `other` to the list of `tile` in direction `dir`.
    fn push_neighbor(&mut self, tile: usize, dir: usize, other: usize)
        requires
            old(self).wf(),
            tile < old(self).n_tiles,
            dir < 4,
        ensures
            final(self).wf(),
            final(self).n_tiles == old(self).n_tiles,
            final(self).allowed() == with_neighbor(old(self).allowed(), tile as int, dir as int, other),
    {
        let ghost m = self.allowed();
        let mut row: Vec<Vec<usize>> = Vec::new();
        self.allowed_neighbors.set_and_swap(tile, &mut row);
        let mut list: Vec<usize> = Vec::new();
        row.set_and_swap(dir, &mut list);
        list.push(other);
        row.set(dir, list);
        self.allowed_neighbors.set(tile, row);
        proof {
            assert forall|t: int| 0 <= t < self.n_tiles implies #[trigger] self.allowed_neighbors@[t]@.len() == 4 by {
                if t != tile {
                    assert(self.allowed_neighbors@[t] == old(self).allowed_neighbors@[t]);
                }
            }
            assert(self.allowed() =~~= with_neighbor(m, tile as int, dir as int, other));
        }
    }

    /// Allows `tile_b` next to `tile_a` in direction `dir`, and `tile_a`
    /// next to `tile_b` in the opposite direction.
    pub fn allow(self, tile_a: usize, dir: usize, tile_b: usize) -> (r: Self)
        requires
            self.wf(),
            tile_a < self.n_tiles,
            tile_b < self.n_tiles,
            dir < 4,
        ensures
            r.wf(),
            r.n_tiles == self.n_tiles,
            r.allowed() == with_pair(self.allowed(), tile_a, dir as int, tile_b),
    {
        let mut rules = self;
        let opposite = (dir + 2) % 4;
        rules.push_neighbor(tile_a, dir, tile_b);
        rules.push_neighbor(tile_b, opposite, tile_a);
        rules
    }
}

/// Simple three-tile rules: empty (0), wall (1) and floor (2).
pub fn default_rules() -> (r: TileRules)
    ensures
        r.wf(),
        r.n_tiles == 3,
        r.allowed() == default_allowed(),
{
    TileRules::new(3).allow(0, 0, 0).allow(0, 1, 0).allow(0, 2, 0).allow(0, 3, 0).allow(1, 0, 1).allow(
        1,
        1,
        1,
    ).allow(1, 2, 1).allow(1, 3, 1).allow(2, 0, 2).allow(2, 1, 2).allow(2, 2, 2).allow(2, 3, 2).allow(
        0,
        0,
        2,
    ).allow(0, 1, 2).allow(0, 2, 2).allow(0, 3, 2).allow(1, 1, 2).allow(1, 3, 2)
}


// ── The grid ──────────────────────────────────────────────────────────────────

/// The index of cell `(x, y)` in a grid `w` cells wide.
pub open spec fn cell_index(w: int, x: int, y: int) -> int {
    y * w + x
}

/// Cells of a `w` by `h` grid lie at distinct indices below `w * h`.
pub proof fn lemma_cell_index(w: int, h: int, x: int, y: int)
    requires
        0 <= x < w,
        0 <= y < h,
    ensures
        0 <= cell_index(w, x, y) < w * h,
        forall|x2: int, y2: int|
            0 <= x2 < w && 0 <= y2 < h && (x2 != x || y2 != y) ==> #[trigger] cell_index(w, x2, y2)
                != cell_index(w, x, y),
{
    assert(0 <= y * w + x < w * h) by (nonlinear_arith)
        requires
            0 <= x < w,
            0 <= y < h,
    ;
    assert forall|x2: int, y2: int| 0 <= x2 < w && 0 <= y2 < h && (x2 != x || y2 != y) implies #[trigger] cell_index(
        w,
        x2,
        y2,
    ) != cell_index(w, x, y) by {
        if y2 == y {
        } else if y2 < y {
            assert(y2 * w + x2 < y * w + x) by (nonlinear_arith)
                requires
                    y2 < y,
                    0 <= x2 < w,
                    0 <= x,
            ;
        } else {
            assert(y * w + x < y2 * w + x2) by (nonlinear_arith)
                requires
                    y < y2,
                    0 <= x < w,
                    0 <= x2,
            ;
        }
    }
}

/// A grid of cells, each holding the tiles still possible there.
pub struct WfcGrid {
    pub width: usize,
    pub height: usize,
    pub cells: Vec<Vec<usize>>,
    pub collapsed: Vec<bool>,
    pub rules: TileRules,
}

impl WfcGrid {
    /// The possible tiles of each cell, row by row.
    pub open spec fn domains(&self) -> Seq<Seq<usize>> {
        Seq::new(self.cells@.len(), |i: int| self.cells@[i]@)
    }

    /// Which cells have been collapsed to one tile.
    pub open spec fn collapsed_flags(&self) -> Seq<bool> {
        self.collapsed@
    }

    /// The adjacency lists of the grid's rules.
    pub open spec fn allowed(&self) -> Seq<Seq<Seq<usize>>> {
        self.rules.allowed()
    }

    /// The number of tiles of the grid's rules.
    pub open spec fn n_tiles(&self) -> nat {
        self.rules.n_tiles as nat
    }

    /// One cell per position, every tile a valid one, the rules well formed.
    pub open spec fn wf(&self) -> bool {
        &&& self.rules.wf()
        &&& self.width * self.height <= usize::MAX
        &&& self.cells@.len() == self.width * self.height
        &&& self.collapsed@.len() == self.cells@.len()
        &&& forall|i: int, k: int|
            0 <= i < self.cells@.len() && 0 <= k < self.cells@[i]@.len() ==> #[trigger] self.cells@[i]@[k]
                < self.rules.n_tiles
    }

    /// A `width` by `height` grid in which every tile is possible everywhere.
    pub fn new(width: usize, height: usize, rules: TileRules) -> (g: Self)
        requires
            rules.wf(),
            width * height <= usize::MAX,
        ensures
            g.wf(),
            g.width == width,
            g.height == height,
            g.allowed() == rules.allowed(),
            g.n_tiles() == rules.n_tiles,
            g.domains() == Seq::new(
                (width * height) as nat,
                |i: int| Seq::new(rules.n_tiles as nat, |t: int| t as usize),
            ),
            g.collapsed_flags() == Seq::new((width * height) as nat, |i: int| false),
    {
        let n = rules.n_tiles;
        let count = width * height;
        let mut cells: Vec<Vec<usize>> = Vec::new();
        let mut collapsed: Vec<bool> = Vec::new();
        let ghost all_tiles = Seq::new(n as nat, |t: int| t as usize);
        let mut i: usize = 0;
        while i < count
            invariant
                i <= count,
                count == width * height,
                n == rules.n_tiles,
                all_tiles == Seq::new(n as nat, |t: int| t as usize),
                cells@.len() == i,
                collapsed@.len() == i,
                forall|j: int| 0 <= j < i ==> (#[trigger] cells@[j])@ == all_tiles,
                forall|j: int| 0 <= j < i ==> !(#[trigger] collapsed@[j]),
            decreases count - i,
        {
            let mut all: Vec<usize> = Vec::new();
            let mut t: usize = 0;
            while t < n
                invariant
                    t <= n,
                    all_tiles == Seq::new(n as nat, |t: int| t as usize),
                    all@ == all_tiles.take(t as int),
                decreases n - t,
            {
                all.push(t);
                t += 1;
                proof {
                    assert(all@ =~= all_tiles.take(t as int));
                }
            }
            proof {
                assert(all@ =~= all_tiles);
            }
            cells.push(all);
            collapsed.push(false);
            i += 1;
        }
        let g = WfcGrid { width, height, cells, collapsed, rules };
        proof {
            assert(g.domains() =~= Seq::new(count as nat, |i: int| all_tiles));
            assert(g.collapsed_flags() =~= Seq::new(count as nat, |i: int| false));
        }
        g
    }

    /// The index of cell `(x, y)`.
    pub fn idx(&self, x: usize, y: usize) -> (i: usize)
        requires
            self.wf(),
            x < self.width,
            y < self.height,
        ensures
            i == cell_index(self.width as int, x as int, y as int),
            i < self.domains().len(),
    {
        proof {
            lemma_cell_index(self.width as int, self.height as int, x as int, y as int);
        }
        y * self.width + x
    }

    /// The tiles still possible at `(x, y)`.
    pub fn possibilities(&self, x: usize, y: usize) -> (r: &Vec<usize>)
        requires
            self.wf(),
            x < self.width,
            y < self.height,
        ensures
            r@ == self.domains()[cell_index(self.width as int, x as int, y as int)],
    {
        let i = self.idx(x, y);
        &self.cells[i]
    }

    /// Whether `(x, y)` has been collapsed to one tile.
    pub fn is_collapsed(&self, x: usize, y: usize) -> (b: bool)
        requires
            self.wf(),
            x < self.width,
            y < self.height,
        ensures
            b == self.collapsed_flags()[cell_index(self.width as int, x as int, y as int)],
    {
        let i = self.idx(x, y);
        self.collapsed[i]
    }

    /// Fixes `(x, y)` to the single tile `tile` and marks it collapsed.
    pub fn collapse_to(&mut self, x: usize, y: usize, tile: usize)
        requires
            old(self).wf(),
            x < old(self).width,
            y < old(self).height,
            tile < old(self).n_tiles(),
        ensures
            final(self).wf(),
            final(self).width == old(self).width,
            final(self).height == old(self).height,
            final(self).allowed() == old(self).allowed(),
            final(self).n_tiles() == old(self).n_tiles(),
            final(self).domains() == old(self).domains().update(
                cell_index(old(self).width as int, x as int, y as int),
                seq![tile],
            ),
            final(self).collapsed_flags() == old(self).collapsed_flags().update(
                cell_index(old(self).width as int, x as int, y as int),
                true,
            ),
    {
        let i = self.idx(x, y);
        let ghost d = self.domains();
        let mut single: Vec<usize> = Vec::new();
        single.push(tile);
        self.cells.set(i, single);
        self.collapsed.set(i, true);
        proof {
            assert(self.domains() =~= d.update(i as int, seq![tile]));
        }
    }

    /// The first possible tile of every cell (0 for a cell with none).
    pub fn result(&self) -> (r: Vec<usize>)
        ensures
            r@ == Seq::new(
                self.domains().len(),
                |i: int|
                    if self.domains()[i].len() > 0 {
                        self.domains()[i][0]
                    } else {
                        0
                    },
            ),
    {
        let mut r: Vec<usize> = Vec::new();
        let mut i: usize = 0;
        while i < self.cells.len()
            invariant
                i <= self.cells@.len(),
                r@.len() == i,
                forall|j: int|
                    0 <= j < i ==> #[trigger] r@[j] == (if self.cells@[j]@.len() > 0 {
                        self.cells@[j]@[0]
                    } else {
                        0
                    }),
            decreases self.cells@.len() - i,
        {
            let c = &self.cells[i];
            if c.len() > 0 {
                r.push(c[0]);
            } else {
                r.push(0);
            }
            i += 1;
        }
        proof {
            assert(r@ =~= Seq::new(
                self.domains().len(),
                |i: int|
                    if self.domains()[i].len() > 0 {
                        self.domains()[i][0]
                    } else {
                        0
                    },
            ));
        }
        r
    }
}


// ── Propagation ───────────────────────────────────────────────────────────────

/// The neighbour of `(x, y)` in direction `dir` (0 north, 1 east, 2 south,
/// 3 west) inside a `w` by `h` grid.
pub open spec fn neighbor(w: int, h: int, x: int, y: int, dir: int) -> Option<(int, int)> {
    if dir == 0 {
        if y > 0 {
            Some((x, y - 1))
        } else {
            None
        }
    } else if dir == 1 {
        if x + 1 < w {
            Some((x + 1, y))
        } else {
            None
        }
    } else if dir == 2 {
        if y + 1 < h {
            Some((x, y + 1))
        } else {
            None
        }
    } else if dir == 3 {
        if x > 0 {
            Some((x - 1, y))
        } else {
            None
        }
    } else {
        None
    }
}

/// Whether some tile of `from` allows `t` next to it in direction `dir`.
pub open spec fn supported(allowed: Seq<Seq<Seq<usize>>>, from: Seq<usize>, dir: int, t: usize) -> bool {
    exists|k: int| 0 <= k < from.len() && #[trigger] allowed[from[k] as int][dir].contains(t)
}

/// The tiles that some tile of `from` allows in direction `dir`.
pub open spec fn supported_by(allowed: Seq<Seq<Seq<usize>>>, from: Seq<usize>, dir: int) -> spec_fn(usize) -> bool {
    |t: usize| supported(allowed, from, dir, t)
}

/// Membership in `s`.
pub open spec fn member_of(s: Seq<usize>) -> spec_fn(usize) -> bool {
    |t: usize| s.contains(t)
}

/// Every tile of the neighbour of `(x, y)` in direction `dir` has support
/// in the tiles of `(x, y)`.
pub open spec fn arc_ok(
    allowed: Seq<Seq<Seq<usize>>>,
    w: int,
    h: int,
    d: Seq<Seq<usize>>,
    x: int,
    y: int,
    dir: int,
) -> bool {
    match neighbor(w, h, x, y, dir) {
        Some((nx, ny)) => forall|t: usize| #[trigger]
            d[cell_index(w, nx, ny)].contains(t) ==> supported(allowed, d[cell_index(w, x, y)], dir, t),
        None => true,
    }
}

/// Every neighbour of `(x, y)` is supported by `(x, y)`.
pub open spec fn arcs_consistent(
    allowed: Seq<Seq<Seq<usize>>>,
    w: int,
    h: int,
    d: Seq<Seq<usize>>,
    x: int,
    y: int,
) -> bool {
    forall|dir: int| 0 <= dir < 4 ==> #[trigger] arc_ok(allowed, w, h, d, x, y, dir)
}

/// Whether cell `i` of `d` lacks a tile that it had in `d0`.
pub open spec fn touched(d0: Seq<Seq<usize>>, d: Seq<Seq<usize>>, i: int) -> bool {
    exists|t: usize| d0[i].contains(t) && !#[trigger] d[i].contains(t)
}

/// Every cell of `d` that lost a tile of `d0` still holds at least one.
pub open spec fn touched_nonempty(d0: Seq<Seq<usize>>, d: Seq<Seq<usize>>) -> bool {
    forall|i: int| 0 <= i < d.len() && #[trigger] touched(d0, d, i) ==> d[i].len() > 0
}

/// Every cell of `d` holds only tiles that the same cell of `e` holds.
pub open spec fn within(d: Seq<Seq<usize>>, e: Seq<Seq<usize>>) -> bool {
    &&& d.len() == e.len()
    &&& forall|i: int, t: usize| 0 <= i < d.len() && #[trigger] d[i].contains(t) ==> e[i].contains(t)
}

/// Every cell of `d` is the cell of `d0` with some tiles left out, in the
/// same order.
pub open spec fn kept_in_order(d0: Seq<Seq<usize>>, d: Seq<Seq<usize>>) -> bool {
    &&& d.len() == d0.len()
    &&& forall|i: int| 0 <= i < d.len() ==> #[trigger] d[i] == d0[i].filter(member_of(d[i]))
}

/// A narrowing `d` of `d0` that propagation from `(sx, sy)` cannot narrow
/// further: the start cell and every cell that lost a tile support all
/// their neighbours.
pub open spec fn settled(
    allowed: Seq<Seq<Seq<usize>>>,
    w: int,
    h: int,
    d0: Seq<Seq<usize>>,
    d: Seq<Seq<usize>>,
    sx: int,
    sy: int,
) -> bool {
    &&& within(d, d0)
    &&& forall|x: int, y: int|
        0 <= x < w && 0 <= y < h && ((x == sx && y == sy) || touched(d0, d, cell_index(w, x, y)))
            ==> #[trigger] arcs_consistent(allowed, w, h, d, x, y)
}

/// Whether `(x, y)` waits in the queue `q`.
pub open spec fn queued(q: Seq<(usize, usize)>, x: int, y: int) -> bool {
    exists|k: int| 0 <= k < q.len() && q[k].0 == x && q[k].1 == y
}

/// The number of tiles in all cells together.
pub open spec fn total_len(d: Seq<Seq<usize>>) -> nat
    decreases d.len(),
{
    if d.len() == 0 {
        0
    } else {
        total_len(d.drop_last()) + d.last().len()
    }
}

proof fn lemma_total_len_update(d: Seq<Seq<usize>>, i: int, s: Seq<usize>)
    requires
        0 <= i < d.len(),
    ensures
        total_len(d.update(i, s)) + d[i].len() == total_len(d) + s.len(),
    decreases d.len(),
{
    if i < d.len() - 1 {
        assert(d.update(i, s).drop_last() =~= d.drop_last().update(i, s));
        lemma_total_len_update(d.drop_last(), i, s);
    } else {
        assert(d.update(i, s).drop_last() =~= d.drop_last());
    }
}

proof fn lemma_filter_contains_iff(s: Seq<usize>, p: spec_fn(usize) -> bool, t: usize)
    ensures
        s.filter(p).contains(t) <==> s.contains(t) && p(t),
{
    if s.filter(p).contains(t) {
        s.lemma_filter_contains_rev(p, t);
        let j = choose|j: int| 0 <= j < s.filter(p).len() && s.filter(p)[j] == t;
        s.lemma_filter_pred(p, j);
    }
    if s.contains(t) && p(t) {
        let j = choose|j: int| 0 <= j < s.len() && s[j] == t;
        s.lemma_filter_contains(p, j);
    }
}

proof fn lemma_filter_all(s: Seq<usize>, p: spec_fn(usize) -> bool)
    requires
        forall|k: int| 0 <= k < s.len() ==> p(#[trigger] s[k]),
    ensures
        s.filter(p) == s,
    decreases s.len(),
{
    reveal(Seq::filter);
    if s.len() > 0 {
        lemma_filter_all(s.drop_last(), p);
        assert(s.drop_last().push(s.last()) =~= s);
    }
}

proof fn lemma_filter_compose(s: Seq<usize>, p: spec_fn(usize) -> bool, q: spec_fn(usize) -> bool)
    ensures
        s.filter(p).filter(q) == s.filter(|t: usize| p(t) && q(t)),
    decreases s.len(),
{
    reveal(Seq::filter);
    if s.len() > 0 {
        lemma_filter_compose(s.drop_last(), p, q);
        let sp = s.drop_last().filter(p);
        if p(s.last()) {
            assert(s.filter(p) == sp.push(s.last()));
            assert(sp.push(s.last()).drop_last() =~= sp);
        }
    }
}

/// `d` with cell `i` narrowed by `q` is still kept in order against `d0`.
proof fn lemma_kept_after_filter(d0: Seq<Seq<usize>>, d: Seq<Seq<usize>>, i: int, q: spec_fn(usize) -> bool)
    requires
        kept_in_order(d0, d),
        0 <= i < d.len(),
    ensures
        kept_in_order(d0, d.update(i, d[i].filter(q))),
{
    let dn = d.update(i, d[i].filter(q));
    let pd = member_of(d[i]);
    let pn = member_of(dn[i]);
    lemma_filter_compose(d0[i], pd, q);
    assert forall|t: usize| #[trigger] pn(t) == (pd(t) && q(t)) by {
        lemma_filter_contains_iff(d[i], q, t);
    }
    assert(pn =~= (|t: usize| pd(t) && q(t)));
    assert forall|j: int| 0 <= j < dn.len() implies #[trigger] dn[j] == d0[j].filter(member_of(dn[j])) by {
        if j != i {
            assert(dn[j] == d[j]);
        }
    }
}

/// Whether `t` occurs in `list`.
fn list_contains(list: &Vec<usize>, t: usize) -> (b: bool)
    ensures
        b == list@.contains(t),
{
    let mut i: usize = 0;
    while i < list.len()
        invariant
            i <= list@.len(),
            forall|j: int| 0 <= j < i ==> list@[j] != t,
        decreases list@.len() - i,
    {
        if list[i] == t {
            return true;
        }
        i += 1;
    }
    false
}

/// Whether some tile of `from` allows `t` next to it in direction `dir`.
fn is_supported(rules: &TileRules, from: &Vec<usize>, dir: usize, t: usize) -> (b: bool)
    requires
        rules.wf(),
        dir < 4,
        forall|k: int| 0 <= k < from@.len() ==> #[trigger] from@[k] < rules.n_tiles,
    ensures
        b == supported(rules.allowed(), from@, dir as int, t),
{
    let mut k: usize = 0;
    while k < from.len()
        invariant
            rules.wf(),
            dir < 4,
            forall|j: int| 0 <= j < from@.len() ==> #[trigger] from@[j] < rules.n_tiles,
            k <= from@.len(),
            forall|j: int| 0 <= j < k ==> !(#[trigger] rules.allowed()[from@[j] as int][dir as int]).contains(t),
        decreases from@.len() - k,
    {
        let ct = from[k];
        if list_contains(&rules.allowed_neighbors[ct][dir], t) {
            assert(rules.allowed()[from@[k as int] as int][dir as int] == rules.allowed_neighbors@[ct as int]@[dir as int]@);
            return true;
        }
        assert(rules.allowed()[from@[k as int] as int][dir as int] == rules.allowed_neighbors@[ct as int]@[dir as int]@);
        k += 1;
    }
    false
}

/// The tiles of `tiles` that some tile of `from` allows in direction `dir`,
/// in order.
fn filter_supported(rules: &TileRules, tiles: &Vec<usize>, from: &Vec<usize>, dir: usize) -> (r: Vec<usize>)
    requires
        rules.wf(),
        dir < 4,
        forall|k: int| 0 <= k < from@.len() ==> #[trigger] from@[k] < rules.n_tiles,
    ensures
        r@ == tiles@.filter(supported_by(rules.allowed(), from@, dir as int)),
{
    let ghost p = supported_by(rules.allowed(), from@, dir as int);
    let mut r: Vec<usize> = Vec::new();
    let mut i: usize = 0;
    while i < tiles.len()
        invariant
            rules.wf(),
            dir < 4,
            forall|k: int| 0 <= k < from@.len() ==> #[trigger] from@[k] < rules.n_tiles,
            p == supported_by(rules.allowed(), from@, dir as int),
            i <= tiles@.len(),
            r@ == tiles@.take(i as int).filter(p),
        decreases tiles@.len() - i,
    {
        let t = tiles[i];
        let keep = is_supported(rules, from, dir, t);
        proof {
            reveal(Seq::filter);
            assert(tiles@.take(i + 1).drop_last() =~= tiles@.take(i as int));
            assert(tiles@.take(i + 1).last() == t);
        }
        if keep {
            r.push(t);
        }
        i += 1;
    }
    proof {
        assert(tiles@.take(tiles@.len() as int) =~= tiles@);
    }
    r
}


proof fn lemma_filter_same_len(s: Seq<usize>, p: spec_fn(usize) -> bool)
    requires
        s.filter(p).len() == s.len(),
    ensures
        s.filter(p) == s,
        forall|k: int| 0 <= k < s.len() ==> p(#[trigger] s[k]),
    decreases s.len(),
{
    reveal(Seq::filter);
    if s.len() > 0 {
        s.drop_last().lemma_filter_len(p);
        lemma_filter_same_len(s.drop_last(), p);
        assert(s.drop_last().push(s.last()) =~= s);
        assert forall|k: int| 0 <= k < s.len() implies p(#[trigger] s[k]) by {
            if k < s.len() - 1 {
                assert(s[k] == s.drop_last()[k]);
            }
        }
    }
}

/// Using a consistent arc: a tile of the neighbour has support.
proof fn lemma_arc_use(
    a: Seq<Seq<Seq<usize>>>,
    w: int,
    h: int,
    d: Seq<Seq<usize>>,
    x: int,
    y: int,
    dir: int,
    nx: int,
    ny: int,
    t: usize,
)
    requires
        arc_ok(a, w, h, d, x, y, dir),
        neighbor(w, h, x, y, dir) == Some((nx, ny)),
        d[cell_index(w, nx, ny)].contains(t),
    ensures
        supported(a, d[cell_index(w, x, y)], dir, t),
{
    let p = neighbor(w, h, x, y, dir)->0;
    assert(p.0 == nx && p.1 == ny);
    assert(d[cell_index(w, p.0, p.1)].contains(t));
}

/// Narrowing cell `ni` leaves an arc from another cell consistent.
proof fn lemma_narrow_keeps_arc(
    a: Seq<Seq<Seq<usize>>>,
    w: int,
    h: int,
    d: Seq<Seq<usize>>,
    x: int,
    y: int,
    dir: int,
    ni: int,
    q: spec_fn(usize) -> bool,
)
    requires
        arc_ok(a, w, h, d, x, y, dir),
        0 <= x < w,
        0 <= y < h,
        d.len() == w * h,
        cell_index(w, x, y) != ni,
        0 <= ni < d.len(),
    ensures
        arc_ok(a, w, h, d.update(ni, d[ni].filter(q)), x, y, dir),
{
    let dn = d.update(ni, d[ni].filter(q));
    lemma_cell_index(w, h, x, y);
    match neighbor(w, h, x, y, dir) {
        Some((nx, ny)) => {
            lemma_cell_index(w, h, nx, ny);
            assert forall|t: usize| #[trigger] dn[cell_index(w, nx, ny)].contains(t) implies supported(
                a,
                dn[cell_index(w, x, y)],
                dir,
                t,
            ) by {
                if cell_index(w, nx, ny) == ni {
                    lemma_filter_contains_iff(d[ni], q, t);
                }
            }
        },
        None => {},
    }
}

/// Narrowing cell `ni` leaves every arc from another cell consistent.
proof fn lemma_narrow_keeps_arcs(
    a: Seq<Seq<Seq<usize>>>,
    w: int,
    h: int,
    d: Seq<Seq<usize>>,
    x: int,
    y: int,
    ni: int,
    q: spec_fn(usize) -> bool,
)
    requires
        arcs_consistent(a, w, h, d, x, y),
        0 <= x < w,
        0 <= y < h,
        d.len() == w * h,
        cell_index(w, x, y) != ni,
        0 <= ni < d.len(),
    ensures
        arcs_consistent(a, w, h, d.update(ni, d[ni].filter(q)), x, y),
{
    assert forall|dir: int| 0 <= dir < 4 implies #[trigger] arc_ok(
        a,
        w,
        h,
        d.update(ni, d[ni].filter(q)),
        x,
        y,
        dir,
    ) by {
        assert(arc_ok(a, w, h, d, x, y, dir));
        lemma_narrow_keeps_arc(a, w, h, d, x, y, dir, ni, q);
    }
}

/// A narrowing that the propagation cannot narrow further keeps every tile
/// that survives one filtering step from a queued cell.
proof fn lemma_narrow_keeps_settled(
    a: Seq<Seq<Seq<usize>>>,
    w: int,
    h: int,
    d0: Seq<Seq<usize>>,
    d: Seq<Seq<usize>>,
    dd: Seq<Seq<usize>>,
    sx: int,
    sy: int,
    cx: int,
    cy: int,
    dir: int,
    nx: int,
    ny: int,
)
    requires
        0 <= cx < w,
        0 <= cy < h,
        neighbor(w, h, cx, cy, dir) == Some((nx, ny)),
        d.len() == w * h,
        (cx == sx && cy == sy) || touched(d0, d, cell_index(w, cx, cy)),
        settled(a, w, h, d0, dd, sx, sy),
        within(dd, d),
    ensures
        within(
            dd,
            d.update(
                cell_index(w, nx, ny),
                d[cell_index(w, nx, ny)].filter(supported_by(a, d[cell_index(w, cx, cy)], dir)),
            ),
        ),
{
    let ci = cell_index(w, cx, cy);
    let ni = cell_index(w, nx, ny);
    let q = supported_by(a, d[ci], dir);
    let dn = d.update(ni, d[ni].filter(q));
    lemma_cell_index(w, h, cx, cy);
    lemma_cell_index(w, h, nx, ny);
    if !(cx == sx && cy == sy) {
        let t0 = choose|t: usize| d0[ci].contains(t) && !#[trigger] d[ci].contains(t);
        if dd[ci].contains(t0) {
            assert(d[ci].contains(t0));
        }
        assert(touched(d0, dd, ci));
    }
    assert(arcs_consistent(a, w, h, dd, cx, cy));
    assert(arc_ok(a, w, h, dd, cx, cy, dir));
    assert forall|i: int, t: usize| 0 <= i < dd.len() && #[trigger] dd[i].contains(t) implies dn[i].contains(
        t,
    ) by {
        assert(d[i].contains(t));
        if i == ni {
            lemma_arc_use(a, w, h, dd, cx, cy, dir, nx, ny, t);
            let k = choose|k: int| 0 <= k < dd[ci].len() && #[trigger] a[dd[ci][k] as int][dir].contains(t);
            assert(dd[ci].contains(dd[ci][k]));
            assert(d[ci].contains(dd[ci][k]));
            let k2 = choose|k2: int| 0 <= k2 < d[ci].len() && d[ci][k2] == dd[ci][k];
            assert(a[d[ci][k2] as int][dir].contains(t));
            assert(supported(a, d[ci], dir, t));
            lemma_filter_contains_iff(d[ni], q, t);
        }
    }
}

/// The queue holds cells of the grid that are the start or have lost a
/// tile.
spec fn queue_ok(
    d0: Seq<Seq<usize>>,
    d: Seq<Seq<usize>>,
    q: Seq<(usize, usize)>,
    w: int,
    h: int,
    sx: int,
    sy: int,
) -> bool {
    forall|k: int|
        0 <= k < q.len() ==> (#[trigger] q[k]).0 < w && q[k].1 < h && ((q[k].0 == sx && q[k].1 == sy)
            || touched(d0, d, cell_index(w, q[k].0 as int, q[k].1 as int)))
}

/// Every cell that is the start or has lost a tile, and is not waiting in
/// the queue, supports its neighbours (`(ex, ey)` excepted).
spec fn done_ok(
    a: Seq<Seq<Seq<usize>>>,
    w: int,
    h: int,
    d0: Seq<Seq<usize>>,
    d: Seq<Seq<usize>>,
    q: Seq<(usize, usize)>,
    sx: int,
    sy: int,
    ex: int,
    ey: int,
) -> bool {
    forall|x: int, y: int|
        0 <= x < w && 0 <= y < h && ((x == sx && y == sy) || touched(d0, d, cell_index(w, x, y)))
            && !queued(q, x, y) && !(x == ex && y == ey) ==> #[trigger] arcs_consistent(a, w, h, d, x, y)
}

/// What one filtering step of the propagation keeps and changes: the cell
/// at `(nx, ny)`, the neighbour of `(cx, cy)` in direction `dir`, is
/// narrowed to the tiles that `(cx, cy)` supports.
proof fn lemma_narrow_step(
    a: Seq<Seq<Seq<usize>>>,
    w: int,
    h: int,
    d0: Seq<Seq<usize>>,
    d: Seq<Seq<usize>>,
    q: Seq<(usize, usize)>,
    sx: int,
    sy: int,
    cx: int,
    cy: int,
    dir: int,
    nx: int,
    ny: int,
)
    requires
        0 <= cx < w,
        0 <= cy < h,
        0 <= dir < 4,
        d.len() == w * h,
        neighbor(w, h, cx, cy, dir) == Some((nx, ny)),
        (cx == sx && cy == sy) || touched(d0, d, cell_index(w, cx, cy)),
        kept_in_order(d0, d),
        forall|dd: Seq<Seq<usize>>| #[trigger] settled(a, w, h, d0, dd, sx, sy) ==> within(dd, d),
        queue_ok(d0, d, q, w, h, sx, sy),
        done_ok(a, w, h, d0, d, q, sx, sy, cx, cy),
        forall|e: int| 0 <= e < dir ==> #[trigger] arc_ok(a, w, h, d, cx, cy, e),
    ensures
        ({
            let ci = cell_index(w, cx, cy);
            let ni = cell_index(w, nx, ny);
            let dn = d.update(ni, d[ni].filter(supported_by(a, d[ci], dir)));
            &&& 0 <= ci < d.len()
            &&& 0 <= ni < d.len()
            &&& ci != ni
            &&& kept_in_order(d0, dn)
            &&& within(dn, d)
            &&& forall|dd: Seq<Seq<usize>>| #[trigger] settled(a, w, h, d0, dd, sx, sy) ==> within(dd, dn)
            &&& forall|e: int| 0 <= e <= dir ==> #[trigger] arc_ok(a, w, h, dn, cx, cy, e)
            &&& queue_ok(d0, dn, q, w, h, sx, sy)
            &&& (cx == sx && cy == sy) || touched(d0, dn, ci)
            &&& forall|x: int, y: int|
                0 <= x < w && 0 <= y < h && ((x == sx && y == sy) || touched(d0, dn, cell_index(w, x, y)))
                    && !queued(q, x, y) && !(x == cx && y == cy) && !(x == nx && y == ny)
                    ==> #[trigger] arcs_consistent(a, w, h, dn, x, y)
            &&& total_len(dn) + d[ni].len() == total_len(d) + dn[ni].len()
            &&& dn[ni].len() < d[ni].len() ==> touched(d0, dn, ni)
            &&& dn[ni].len() == d[ni].len() ==> dn == d
        }),
{
    let ci = cell_index(w, cx, cy);
    let ni = cell_index(w, nx, ny);
    let qd = supported_by(a, d[ci], dir);
    let dn = d.update(ni, d[ni].filter(qd));
    lemma_cell_index(w, h, cx, cy);
    lemma_cell_index(w, h, nx, ny);
    assert(ni != ci);
    lemma_kept_after_filter(d0, d, ni, qd);
    assert forall|i: int, t: usize| 0 <= i < d.len() && #[trigger] dn[i].contains(t) implies d[i].contains(t) by {
        if i == ni {
            lemma_filter_contains_iff(d[ni], qd, t);
        }
    }
    assert forall|i: int| 0 <= i < d.len() && touched(d0, d, i) implies #[trigger] touched(d0, dn, i) by {
        let t0 = choose|t: usize| d0[i].contains(t) && !#[trigger] d[i].contains(t);
        assert(!dn[i].contains(t0));
    }
    assert forall|dd: Seq<Seq<usize>>| #[trigger] settled(a, w, h, d0, dd, sx, sy) implies within(dd, dn) by {
        lemma_narrow_keeps_settled(a, w, h, d0, d, dd, sx, sy, cx, cy, dir, nx, ny);
    }
    assert forall|e: int| 0 <= e <= dir implies #[trigger] arc_ok(a, w, h, dn, cx, cy, e) by {
        if e < dir {
            lemma_narrow_keeps_arc(a, w, h, d, cx, cy, e, ni, qd);
        } else {
            assert forall|t: usize| #[trigger] dn[ni].contains(t) implies supported(a, dn[ci], dir, t) by {
                lemma_filter_contains_iff(d[ni], qd, t);
            }
        }
    }
    assert forall|k: int| 0 <= k < q.len() implies (#[trigger] q[k]).0 < w && q[k].1 < h && ((q[k].0 == sx && q[k].1 == sy)
        || touched(d0, dn, cell_index(w, q[k].0 as int, q[k].1 as int))) by {
        if !(q[k].0 == sx && q[k].1 == sy) {
            lemma_cell_index(w, h, q[k].0 as int, q[k].1 as int);
        }
    }
    assert forall|x: int, y: int|
        0 <= x < w && 0 <= y < h && ((x == sx && y == sy) || touched(d0, dn, cell_index(w, x, y)))
            && !queued(q, x, y) && !(x == cx && y == cy) && !(x == nx && y == ny)
            implies #[trigger] arcs_consistent(a, w, h, dn, x, y) by {
        lemma_cell_index(w, h, x, y);
        assert(cell_index(w, x, y) != ni);
        assert(dn[cell_index(w, x, y)] == d[cell_index(w, x, y)]);
        assert(arcs_consistent(a, w, h, d, x, y));
        lemma_narrow_keeps_arcs(a, w, h, d, x, y, ni, qd);
    }
    lemma_total_len_update(d, ni, d[ni].filter(qd));
    if dn[ni].len() < d[ni].len() {
        if forall|k: int| 0 <= k < d[ni].len() ==> qd(#[trigger] d[ni][k]) {
            lemma_filter_all(d[ni], qd);
        }
        let k = choose|k: int| 0 <= k < d[ni].len() && !qd(#[trigger] d[ni][k]);
        let t0 = d[ni][k];
        assert(d[ni].contains(t0));
        lemma_filter_contains_iff(d[ni], qd, t0);
        lemma_filter_contains_iff(d0[ni], member_of(d[ni]), t0);
        assert(d0[ni].contains(t0));
        assert(touched(d0, dn, ni));
    }
    if dn[ni].len() == d[ni].len() {
        lemma_filter_same_len(d[ni], qd);
        assert(dn =~= d);
    }
}

/// With the queue empty, the narrowing is settled.
proof fn lemma_settled_at_end(
    a: Seq<Seq<Seq<usize>>>,
    w: int,
    h: int,
    d0: Seq<Seq<usize>>,
    d: Seq<Seq<usize>>,
    q: Seq<(usize, usize)>,
    sx: int,
    sy: int,
)
    requires
        q.len() == 0,
        kept_in_order(d0, d),
        done_ok(a, w, h, d0, d, q, sx, sy, -1, -1),
    ensures
        settled(a, w, h, d0, d, sx, sy),
{
    assert forall|i: int, t: usize| 0 <= i < d.len() && #[trigger] d[i].contains(t) implies d0[i].contains(t) by {
        lemma_filter_contains_iff(d0[i], member_of(d[i]), t);
    }
    assert forall|x: int, y: int|
        0 <= x < w && 0 <= y < h && ((x == sx && y == sy) || touched(d0, d, cell_index(w, x, y)))
            implies #[trigger] arcs_consistent(a, w, h, d, x, y) by {
        assert(!queued(q, x, y));
    }
}

impl WfcGrid {
    /// Propagates the constraints from `(start_x, start_y)` (AC-3): each
    /// cell taken from a queue narrows its neighbours to the tiles it
    /// supports, and a neighbour that lost a tile joins the queue. Returns
    /// `false` as soon as a cell is left with no tile.
    ///
    /// Every cell keeps its tiles in order, less those removed; no tile is
    /// removed that a narrowing settled from the start (see `settled`)
    /// keeps; on success the result is itself settled, and so the largest
    /// such narrowing, and every cell that lost a tile still holds one; on
    /// failure some cell is empty.
    pub fn propagate(&mut self, start_x: usize, start_y: usize) -> (ok: bool)
        requires
            old(self).wf(),
            start_x < old(self).width,
            start_y < old(self).height,
        ensures
            final(self).wf(),
            final(self).width == old(self).width,
            final(self).height == old(self).height,
            final(self).rules == old(self).rules,
            final(self).collapsed == old(self).collapsed,
            kept_in_order(old(self).domains(), final(self).domains()),
            forall|d: Seq<Seq<usize>>|
                #[trigger] settled(
                    old(self).allowed(),
                    old(self).width as int,
                    old(self).height as int,
                    old(self).domains(),
                    d,
                    start_x as int,
                    start_y as int,
                ) ==> within(d, final(self).domains()),
            ok ==> settled(
                old(self).allowed(),
                old(self).width as int,
                old(self).height as int,
                old(self).domains(),
                final(self).domains(),
                start_x as int,
                start_y as int,
            ),
            ok ==> touched_nonempty(old(self).domains(), final(self).domains()),
            !ok ==> exists|i: int|
                0 <= i < final(self).domains().len() && #[trigger] final(self).domains()[i].len() == 0,
    {
        let ghost d0 = self.domains();
        let ghost a = self.allowed();
        let ghost w = self.width as int;
        let ghost h = self.height as int;
        let ghost sx = start_x as int;
        let ghost sy = start_y as int;
        let mut queue: VecDeque<(usize, usize)> = VecDeque::new();
        queue.push_back((start_x, start_y));
        proof {
            assert forall|i: int| 0 <= i < d0.len() implies #[trigger] d0[i] == d0[i].filter(
                member_of(d0[i]),
            ) by {
                assert forall|k: int| 0 <= k < d0[i].len() implies member_of(d0[i])(#[trigger] d0[i][k]) by {
                    assert(d0[i].contains(d0[i][k]));
                }
                lemma_filter_all(d0[i], member_of(d0[i]));
            }
            assert(queued(queue@, sx, sy)) by {
                assert(queue@[0].0 == sx && queue@[0].1 == sy);
            }
        }
        loop
            invariant
                self.wf(),
                self.width == old(self).width,
                self.height == old(self).height,
                self.rules == old(self).rules,
                self.collapsed == old(self).collapsed,
                d0 == old(self).domains(),
                a == old(self).allowed(),
                w == self.width,
                h == self.height,
                sx == start_x,
                sy == start_y,
                sx < w,
                sy < h,
                kept_in_order(d0, self.domains()),
                touched_nonempty(d0, self.domains()),
                forall|dd: Seq<Seq<usize>>|
                    #[trigger] settled(a, w, h, d0, dd, sx, sy) ==> within(dd, self.domains()),
                queue_ok(d0, self.domains(), queue@, w, h, sx, sy),
                done_ok(a, w, h, d0, self.domains(), queue@, sx, sy, -1, -1),
            decreases total_len(self.domains()) + queue@.len(),
        {
            let ghost q_before = queue@;
            let (cx, cy) = match queue.pop_front() {
                Some(c) => c,
                None => {
                    proof {
                        lemma_settled_at_end(a, w, h, d0, self.domains(), queue@, sx, sy);
                    }
                    return true;
                },
            };
            let ci = self.idx(cx, cy);
            proof {
                assert(q_before[0] == (cx, cy));
                assert forall|k: int| 0 <= k < queue@.len() implies #[trigger] queue@[k] == q_before[k + 1] by {}
                assert forall|x: int, y: int|
                    0 <= x < w && 0 <= y < h && ((x == sx && y == sy) || touched(d0, self.domains(), cell_index(w, x, y)))
                        && !queued(queue@, x, y) && !(x == cx && y == cy)
                        implies #[trigger] arcs_consistent(a, w, h, self.domains(), x, y) by {
                    if queued(q_before, x, y) {
                        let k = choose|k: int| 0 <= k < q_before.len() && q_before[k].0 == x && q_before[k].1 == y;
                        if k > 0 {
                            assert(queue@[k - 1] == q_before[k]);
                        }
                    }
                }
            }
            let mut dir: usize = 0;
            let ghost measure = total_len(self.domains()) + queue@.len();
            while dir < 4
                invariant
                    self.wf(),
                    self.width == old(self).width,
                    self.height == old(self).height,
                    self.rules == old(self).rules,
                    self.collapsed == old(self).collapsed,
                    d0 == old(self).domains(),
                    a == old(self).allowed(),
                    w == self.width,
                    h == self.height,
                    sx == start_x,
                    sy == start_y,
                    sx < w,
                    sy < h,
                    cx < w,
                    cy < h,
                    ci == cell_index(w, cx as int, cy as int),
                    ci < self.domains().len(),
                    dir <= 4,
                    (cx == sx && cy == sy) || touched(d0, self.domains(), ci as int),
                    kept_in_order(d0, self.domains()),
                    touched_nonempty(d0, self.domains()),
                    forall|dd: Seq<Seq<usize>>|
                        #[trigger] settled(a, w, h, d0, dd, sx, sy) ==> within(dd, self.domains()),
                    queue_ok(d0, self.domains(), queue@, w, h, sx, sy),
                    done_ok(a, w, h, d0, self.domains(), queue@, sx, sy, cx as int, cy as int),
                    forall|dd: int| 0 <= dd < dir ==> #[trigger] arc_ok(a, w, h, self.domains(), cx as int, cy as int, dd),
                    total_len(self.domains()) + queue@.len() <= measure,
                decreases 4 - dir,
            {
                let (found, nx, ny) = if dir == 0 {
                    if cy > 0 {
                        (true, cx, cy - 1)
                    } else {
                        (false, 0, 0)
                    }
                } else if dir == 1 {
                    if cx + 1 < self.width {
                        (true, cx + 1, cy)
                    } else {
                        (false, 0, 0)
                    }
                } else if dir == 2 {
                    if cy + 1 < self.height {
                        (true, cx, cy + 1)
                    } else {
                        (false, 0, 0)
                    }
                } else {
                    if cx > 0 {
                        (true, cx - 1, cy)
                    } else {
                        (false, 0, 0)
                    }
                };
                if found {
                    let ni = self.idx(nx, ny);
                    let ghost d = self.domains();
                    let ghost qd = supported_by(a, d[ci as int], dir as int);
                    proof {
                        assert(neighbor(w, h, cx as int, cy as int, dir as int) == Some((nx as int, ny as int)));
                        lemma_cell_index(w, h, cx as int, cy as int);
                        assert(ni != ci);
                        assert forall|k: int| 0 <= k < self.cells@[ci as int]@.len() implies #[trigger] self.cells@[ci as int]@[k] < self.rules.n_tiles by {}
                    }
                    let before_len = self.cells[ni].len();
                    let filtered = filter_supported(&self.rules, &self.cells[ni], &self.cells[ci], dir);
                    self.cells.set(ni, filtered);
                    let ghost dn = self.domains();
                    proof {
                        assert(dn =~= d.update(ni as int, d[ni as int].filter(qd)));
                        lemma_narrow_step(a, w, h, d0, d, queue@, sx, sy, cx as int, cy as int, dir as int, nx as int, ny as int);
                        assert forall|i: int, k: int|
                            0 <= i < self.cells@.len() && 0 <= k < self.cells@[i]@.len() implies #[trigger] self.cells@[i]@[k]
                                < self.rules.n_tiles by {
                            assert(dn[i].contains(dn[i][k]));
                            assert(d[i].contains(dn[i][k]));
                            let k2 = choose|k2: int| 0 <= k2 < d[i].len() && d[i][k2] == dn[i][k];
                            assert(old(self).cells@.len() == d.len());
                        }
                    }
                    let after_len = self.cells[ni].len();
                    if after_len == 0 {
                        proof {
                            assert(self.domains()[ni as int].len() == 0);
                        }
                        return false;
                    }
                    proof {
                        assert forall|i: int| 0 <= i < dn.len() && #[trigger] touched(d0, dn, i) implies dn[i].len() > 0 by {
                            if i != ni as int {
                                let t = choose|t: usize| d0[i].contains(t) && !#[trigger] dn[i].contains(t);
                                assert(dn[i] == d[i]);
                                assert(touched(d0, d, i));
                            } else {
                                assert(dn[i] == self.cells@[i]@);
                            }
                        }
                    }
                    if after_len < before_len {
                        let ghost q_old = queue@;
                        queue.push_back((nx, ny));
                        proof {
                            assert(queued(queue@, nx as int, ny as int)) by {
                                assert(queue@[q_old.len() as int] == (nx, ny));
                            }
                            assert forall|k: int| 0 <= k < queue@.len() implies (#[trigger] queue@[k]).0 < w && queue@[k].1 < h && ((queue@[k].0 == sx && queue@[k].1 == sy)
                                || touched(d0, dn, cell_index(w, queue@[k].0 as int, queue@[k].1 as int))) by {
                                if k < q_old.len() {
                                    assert(queue@[k] == q_old[k]);
                                }
                            }
                            assert forall|x: int, y: int|
                                0 <= x < w && 0 <= y < h && ((x == sx && y == sy) || touched(d0, dn, cell_index(w, x, y)))
                                    && !queued(queue@, x, y) && !(x == cx && y == cy)
                                    implies #[trigger] arcs_consistent(a, w, h, dn, x, y) by {
                                if queued(q_old, x, y) {
                                    let k = choose|k: int| 0 <= k < q_old.len() && q_old[k].0 == x && q_old[k].1 == y;
                                    assert(queue@[k] == q_old[k]);
                                }
                            }
                        }
                    }
                }
                proof {
                    if !found {
                        assert(neighbor(w, h, cx as int, cy as int, dir as int) is None);
                        assert(arc_ok(a, w, h, self.domains(), cx as int, cy as int, dir as int));
                    }
                }
                dir += 1;
            }
            proof {
                assert(arcs_consistent(a, w, h, self.domains(), cx as int, cy as int));
                assert forall|x: int, y: int|
                    0 <= x < w && 0 <= y < h && ((x == sx && y == sy) || touched(d0, self.domains(), cell_index(w, x, y)))
                        && !queued(queue@, x, y) && !(x == -1 && y == -1) implies #[trigger] arcs_consistent(a, w, h, self.domains(), x, y) by {
                    if !(x == cx && y == cy) {
                    }
                }
            }
        }
    }
}


/// A narrowing settled from a start is settled against itself: running the
/// propagation again from the same start on its result removes nothing.
pub proof fn lemma_settled_again(
    a: Seq<Seq<Seq<usize>>>,
    w: int,
    h: int,
    d0: Seq<Seq<usize>>,
    d: Seq<Seq<usize>>,
    sx: int,
    sy: int,
)
    requires
        settled(a, w, h, d0, d, sx, sy),
        0 <= sx < w,
        0 <= sy < h,
    ensures
        settled(a, w, h, d, d, sx, sy),
{
    assert(arcs_consistent(a, w, h, d, sx, sy));
    assert forall|x: int, y: int|
        0 <= x < w && 0 <= y < h && ((x == sx && y == sy) || touched(d, d, cell_index(w, x, y)))
            implies #[trigger] arcs_consistent(a, w, h, d, x, y) by {
        if !(x == sx && y == sy) {
            let t = choose|t: usize| d[cell_index(w, x, y)].contains(t) && !#[trigger] d[cell_index(w, x, y)].contains(t);
        }
    }
}

// ── Rendering ─────────────────────────────────────────────────────────────────

/// The tile shown for a cell: its first possible tile, or 0 if none.
pub open spec fn shown_tile(cell: Seq<usize>) -> usize {
    if cell.len() > 0 {
        cell[0]
    } else {
        0
    }
}

/// Channel `k` (red, green, blue, then opaque alpha) of a colour.
pub open spec fn rgba_channel(c: (u8, u8, u8), k: int) -> u8 {
    if k == 0 {
        c.0
    } else if k == 1 {
        c.1
    } else if k == 2 {
        c.2
    } else {
        255
    }
}

/// Channel `k` of the pixel at `(px, py)`: the colour of the tile shown in
/// the cell that holds the pixel, cells being `ts` pixels square.
pub open spec fn render_channel(
    d: Seq<Seq<usize>>,
    w: int,
    colors: Seq<(u8, u8, u8)>,
    ts: int,
    px: int,
    py: int,
    k: int,
) -> u8 {
    let tile = shown_tile(d[cell_index(w, px / ts, py / ts)]);
    rgba_channel(colors[tile as int % colors.len() as int], k)
}

proof fn lemma_cell_of_pixel(p: int, n: int, ts: int)
    requires
        0 <= p < n * ts,
        ts > 0,
        n >= 0,
    ensures
        0 <= p / ts < n,
{
    assert(0 <= p / ts < n) by (nonlinear_arith)
        requires
            0 <= p < n * ts,
            ts > 0,
    ;
}

impl WfcGrid {
    /// The grid as RGBA pixels, each cell a `tile_size` square in the colour
    /// `colors[tile % colors.len()]` of the tile it shows; pixel `j` is at
    /// column `j % (width * tile_size)`, row `j / (width * tile_size)`.
    pub fn render(&self, tile_size: u32, colors: &[(u8, u8, u8)]) -> (r: Vec<u8>)
        requires
            self.wf(),
            self.width * tile_size <= u32::MAX,
            self.height * tile_size <= u32::MAX,
            self.width <= u32::MAX,
            self.height <= u32::MAX,
            (self.width * tile_size) * (self.height * tile_size) * 4 <= u32::MAX,
            colors@.len() > 0 || self.width * self.height == 0,
        ensures
            ({
                let pw = self.width * tile_size;
                let ph = self.height * tile_size;
                &&& r@.len() == 4 * (pw * ph)
                &&& forall|j: int, k: int|
                    0 <= j < pw * ph && 0 <= k < 4 ==> #[trigger] r@[4 * j + k] == render_channel(
                        self.domains(),
                        self.width as int,
                        colors@,
                        tile_size as int,
                        j % pw,
                        j / pw,
                        k,
                    )
            }),
    {
        let pw = self.width as u32 * tile_size;
        let ph = self.height as u32 * tile_size;
        let total = pw * ph;
        let tiles = self.result();
        let mut pixels: Vec<u8> = Vec::new();
        let mut j: u32 = 0;
        while j < total
            invariant
                self.wf(),
                pw == self.width * tile_size,
                ph == self.height * tile_size,
                total == pw * ph,
                total * 4 <= u32::MAX,
                colors@.len() > 0 || self.width * self.height == 0,
                tiles@ == Seq::new(self.domains().len(), |i: int| shown_tile(self.domains()[i])),
                j <= total,
                pixels@.len() == 4 * j,
                forall|jj: int, k: int|
                    0 <= jj < j && 0 <= k < 4 ==> #[trigger] pixels@[4 * jj + k] == render_channel(
                        self.domains(),
                        self.width as int,
                        colors@,
                        tile_size as int,
                        jj % pw as int,
                        jj / pw as int,
                        k,
                    ),
            decreases total - j,
        {
            let px = j % pw;
            let py = j / pw;
            proof {
                assert(pw > 0 && ph > 0) by (nonlinear_arith)
                    requires
                        j < total,
                        total == pw * ph,
                ;
                assert(tile_size > 0 && self.width > 0 && self.height > 0) by (nonlinear_arith)
                    requires
                        pw > 0,
                        ph > 0,
                        pw == self.width * tile_size,
                        ph == self.height * tile_size,
                ;
                assert(py < ph) by (nonlinear_arith)
                    requires
                        j < pw * ph,
                        pw > 0,
                        py == j / pw,
                ;
                lemma_cell_of_pixel(px as int, self.width as int, tile_size as int);
                lemma_cell_of_pixel(py as int, self.height as int, tile_size as int);
                assert(self.width * self.height > 0) by (nonlinear_arith)
                    requires
                        self.width > 0,
                        self.height > 0,
                ;
            }
            let cx = (px / tile_size) as usize;
            let cy = (py / tile_size) as usize;
            let cell = self.idx(cx, cy);
            let tile = tiles[cell];
            let c = colors[tile % colors.len()];
            let ghost before = pixels@;
            pixels.push(c.0);
            pixels.push(c.1);
            pixels.push(c.2);
            pixels.push(255);
            proof {
                assert forall|jj: int, k: int| 0 <= jj < j + 1 && 0 <= k < 4 implies #[trigger] pixels@[4 * jj + k]
                    == render_channel(
                    self.domains(),
                    self.width as int,
                    colors@,
                    tile_size as int,
                    jj % pw as int,
                    jj / pw as int,
                    k,
                ) by {
                    if jj < j {
                        assert(pixels@[4 * jj + k] == before[4 * jj + k]);
                    }
                }
            }
            j += 1;
        }
        pixels
    }
}

} // verus!

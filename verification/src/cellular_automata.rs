//! 2D Cellular Automata: Game of Life, Rule 110, and Langton's Ant.
//!
//! Cells are bytes; a cell is alive when its byte is non-zero.

use vstd::prelude::*;
use crate::cellular_automata_2d::moore_offsets;

verus! {

/// The state of a single cell.
#[derive(Debug, Clone, Copy, PartialEq, Structural)]
pub enum CellState {
    Dead,
    Alive,
    Custom(u8),
}

/// A 2D grid of cells with optional wrapping.
#[derive(Debug, Clone)]
pub struct Grid {
    pub width: usize,
    pub height: usize,
    pub cells: Vec<Vec<u8>>,
    pub wrap: bool,
}

/// The mathematical content of a [`Grid`].
pub struct GridModel {
    pub width: int,
    pub height: int,
    pub wrap: bool,
    /// `cells[y][x]`
    pub cells: Seq<Seq<u8>>,
}

impl View for Grid {
    type V = GridModel;

    open spec fn view(&self) -> GridModel {
        GridModel {
            width: self.width as int,
            height: self.height as int,
            wrap: self.wrap,
            cells: self.cells@.map_values(|r: Vec<u8>| r@),
        }
    }
}

/// The Game of Life rule: a living cell survives with two or three living
/// neighbours, a dead one is born with exactly three.
pub open spec fn life_rule(alive: bool, n: int) -> u8 {
    if (alive && (n == 2 || n == 3)) || (!alive && n == 3) {
        1
    } else {
        0
    }
}

/// Rule 110 on the low bits of the left, centre and right cells: the new
/// cell is alive for the neighbourhoods 110, 101, 011, 010 and 001.
pub open spec fn rule_110(left: u8, center: u8, right: u8) -> u8 {
    let l = left % 2 == 1;
    let c = center % 2 == 1;
    let r = right % 2 == 1;
    if (c || r) && !(l && c && r) {
        1
    } else {
        0
    }
}

impl GridModel {
    /// One row per line and one cell per column.
    pub open spec fn wf(self) -> bool {
        &&& self.cells.len() == self.height
        &&& forall|y: int| 0 <= y < self.height ==> (#[trigger] self.cells[y]).len() == self.width
    }

    /// Whether the (possibly out-of-range) position `(x, y)` holds a living
    /// cell: wrapped when the grid wraps, dead outside otherwise.
    pub open spec fn occupied(self, x: int, y: int) -> bool {
        if self.wrap {
            self.cells[y % self.height][x % self.width] != 0
        } else if 0 <= x < self.width && 0 <= y < self.height {
            self.cells[y][x] != 0
        } else {
            false
        }
    }

    /// Number of living cells among the first `k` Moore offsets around `(x, y)`.
    pub open spec fn count_first(self, x: int, y: int, k: int) -> nat
        decreases k,
    {
        if k <= 0 {
            0
        } else {
            let o = moore_offsets()[k - 1];
            self.count_first(x, y, k - 1) + if self.occupied(x + o.0, y + o.1) {
                1nat
            } else {
                0nat
            }
        }
    }

    /// Number of living Moore neighbours of `(x, y)`.
    pub open spec fn neighbors(self, x: int, y: int) -> nat {
        self.count_first(x, y, 8)
    }

    /// The Game of Life successor of cell `(x, y)`.
    pub open spec fn life_next(self, x: int, y: int) -> u8 {
        life_rule(self.cells[y][x] != 0, self.neighbors(x, y) as int)
    }

    /// The Rule 110 successor of cell `(x, y)`, each row evolving on its own.
    pub open spec fn rule_110_next(self, x: int, y: int) -> u8 {
        let left = if self.wrap {
            self.cells[y][(x + self.width - 1) % self.width]
        } else if x > 0 {
            self.cells[y][x - 1]
        } else {
            0
        };
        let right = if self.wrap {
            self.cells[y][(x + 1) % self.width]
        } else if x + 1 < self.width {
            self.cells[y][x + 1]
        } else {
            0
        };
        rule_110(left, self.cells[y][x], right)
    }
}

/// One step of the LCG used to seed random grids (Numerical Recipes
/// constants), modulo 2^64.
pub open spec fn lcg_next(s: u64) -> u64 {
    ((s * 1664525 + 1013904223) % 0x1_0000_0000_0000_0000) as u64
}

/// The LCG state after `k` steps from `s`.
pub open spec fn lcg_iter(s: u64, k: nat) -> u64
    decreases k,
{
    if k == 0 {
        s
    } else {
        lcg_next(lcg_iter(s, (k - 1) as nat))
    }
}

/// The cell value `Grid::random` draws from an LCG state: alive (1) when
/// bits 33..41 of the state are below 77 (about 30%).
pub open spec fn random_cell(state: u64) -> u8 {
    if (state >> 33u64) % 256 < 77 {
        1
    } else {
        0
    }
}

proof fn lemma_lcg_step(s: u64)
    ensures
        s.wrapping_mul(1664525).wrapping_add(1013904223) == lcg_next(s),
{
    let m = 0x1_0000_0000_0000_0000int;
    let c = 1013904223int;
    let p = (s as int * 1664525) % m;
    vstd::arithmetic::div_mod::lemma_mod_bound(s as int * 1664525, m);
    vstd::arithmetic::div_mod::lemma_small_mod(c as nat, m as nat);
    vstd::arithmetic::div_mod::lemma_add_mod_noop(s as int * 1664525, c, m);
    vstd::arithmetic::div_mod::lemma_small_mod(p as nat, m as nat);
    if p + c >= m {
        vstd::arithmetic::div_mod::lemma_fundamental_div_mod_converse(p + c, m, 1, p + c - m);
    } else {
        vstd::arithmetic::div_mod::lemma_small_mod((p + c) as nat, m as nat);
    }
}

impl Grid {
    /// Creates a new empty (all-dead) grid.
    pub fn new(width: usize, height: usize, wrap: bool) -> (g: Self)
        ensures
            g@.wf(),
            g.width == width,
            g.height == height,
            g.wrap == wrap,
            forall|y: int, x: int| 0 <= y < height && 0 <= x < width ==> g@.cells[y][x] == 0,
    {
        let mut cells: Vec<Vec<u8>> = Vec::new();
        let mut y: usize = 0;
        while y < height
            invariant
                y <= height,
                cells@.len() == y,
                forall|j: int| 0 <= j < y ==> (#[trigger] cells@[j])@.len() == width,
                forall|j: int, x: int| 0 <= j < y && 0 <= x < width ==> cells@[j]@[x] == 0,
            decreases height - y,
        {
            let mut row: Vec<u8> = Vec::new();
            let mut x: usize = 0;
            while x < width
                invariant
                    x <= width,
                    row@.len() == x,
                    forall|i: int| 0 <= i < x ==> row@[i] == 0,
                decreases width - x,
            {
                row.push(0);
                x += 1;
            }
            cells.push(row);
            y += 1;
        }
        let g = Self { width, height, cells, wrap };
        proof {
            assert forall|j: int| 0 <= j < height implies (#[trigger] g@.cells[j]).len() == width by {
                assert(g@.cells[j] == g.cells@[j]@);
            }
        }
        g
    }

    /// Creates a grid with ~30% alive cells using an LCG seeded PRNG: cell
    /// number `k` in row-major order draws from the state after `k + 1` steps
    /// from `seed + 1` (wrapping).
    pub fn random(width: usize, height: usize, seed: u64) -> (g: Self)
        requires
            width * height <= usize::MAX,
        ensures
            g@.wf(),
            g.width == width,
            g.height == height,
            g.wrap,
            forall|y: int, x: int|
                0 <= y < height && 0 <= x < width ==> #[trigger] g@.cells[y][x] == random_cell(
                    lcg_iter(seed.wrapping_add(1), (y * width + x + 1) as nat),
                ),
    {
        let mut state = seed.wrapping_add(1);
        let ghost start = state;
        let mut cells: Vec<Vec<u8>> = Vec::new();
        let mut y: usize = 0;
        while y < height
            invariant
                y <= height,
                width * height <= usize::MAX,
                cells@.len() == y,
                start == seed.wrapping_add(1),
                state == lcg_iter(start, (y * width) as nat),
                forall|j: int| 0 <= j < y ==> (#[trigger] cells@[j])@.len() == width,
                forall|j: int, x: int|
                    0 <= j < y && 0 <= x < width ==> #[trigger] cells@[j]@[x] == random_cell(
                        lcg_iter(start, (j * width + x + 1) as nat),
                    ),
            decreases height - y,
        {
            let mut row: Vec<u8> = Vec::new();
            let mut x: usize = 0;
            while x < width
                invariant
                    x <= width,
                    row@.len() == x,
                    state == lcg_iter(start, (y * width + x) as nat),
                    forall|i: int|
                        0 <= i < x ==> #[trigger] row@[i] == random_cell(
                            lcg_iter(start, (y * width + i + 1) as nat),
                        ),
                decreases width - x,
            {
                proof {
                    lemma_lcg_step(state);
                }
                state = state.wrapping_mul(1664525).wrapping_add(1013904223);
                let val = (state >> 33) & 0xFF;
                proof {
                    assert((state >> 33u64) & 0xFF == (state >> 33u64) % 256) by (bit_vector);
                }
                row.push(if val < 77 { 1 } else { 0 });
                x += 1;
            }
            cells.push(row);
            proof {
                assert((y + 1) * width == y * width + width) by (nonlinear_arith);
            }
            y += 1;
        }
        let g = Self { width, height, cells, wrap: true };
        proof {
            assert forall|j: int| 0 <= j < height implies (#[trigger] g@.cells[j]).len() == width by {
                assert(g@.cells[j] == g.cells@[j]@);
            }
            assert forall|j: int, x: int| 0 <= j < height && 0 <= x < width implies #[trigger] g@.cells[j][x]
                == random_cell(lcg_iter(seed.wrapping_add(1), (j * width + x + 1) as nat)) by {
                assert(g@.cells[j] == g.cells@[j]@);
            }
        }
        g
    }

    /// Returns the wrapped coordinate (or `None` off a non-wrapping grid).
    fn wrap_coord(&self, val: isize, max: usize) -> (r: Option<usize>)
        requires
            max <= isize::MAX,
            self.wrap ==> max > 0,
        ensures
            self.wrap ==> r == Some((val as int % max as int) as usize),
            !self.wrap ==> r == if 0 <= val < max {
                Some(val as usize)
            } else {
                None
            },
    {
        if self.wrap {
            let m = max as isize;
            let r = val.checked_rem_euclid(m);
            match r {
                Some(v) => Some(v as usize),
                None => None,
            }
        } else if val >= 0 && val < max as isize {
            Some(val as usize)
        } else {
            None
        }
    }

    /// Counts alive neighbors in the Moore (8-cell) neighborhood.
    pub fn neighbor_count(&self, x: usize, y: usize) -> (count: u8)
        requires
            self@.wf(),
            x < isize::MAX,
            y < isize::MAX,
            self.width <= isize::MAX,
            self.height <= isize::MAX,
            self.wrap ==> self.width > 0 && self.height > 0,
        ensures
            count == self@.neighbors(x as int, y as int),
    {
        let offsets: [(isize, isize); 8] = [(-1, -1), (0, -1), (1, -1), (-1, 0), (1, 0), (-1, 1), (0, 1), (1, 1)];
        let mut count: u8 = 0;
        let mut k: usize = 0;
        while k < 8
            invariant
                k <= 8,
                count == self@.count_first(x as int, y as int, k as int),
                count <= k,
                x < isize::MAX,
                y < isize::MAX,
                self@.wf(),
                self.width <= isize::MAX,
                self.height <= isize::MAX,
                self.wrap ==> self.width > 0 && self.height > 0,
                forall|j: int|
                    0 <= j < 8 ==> (#[trigger] offsets@[j]).0 == moore_offsets()[j].0
                        && offsets@[j].1 == moore_offsets()[j].1,
            decreases 8 - k,
        {
            let (dx, dy) = offsets[k];
            let nxo = self.wrap_coord(x as isize + dx, self.width);
            let nyo = self.wrap_coord(y as isize + dy, self.height);
            let ghost o = moore_offsets()[k as int];
            let ghost (gx, gy) = (x + o.0, y + o.1);
            if let (Some(nx), Some(ny)) = (nxo, nyo) {
                proof {
                    if self.wrap {
                        vstd::arithmetic::div_mod::lemma_mod_bound(gx, self.width as int);
                        vstd::arithmetic::div_mod::lemma_mod_bound(gy, self.height as int);
                    }
                    assert(self@.cells[ny as int] == self.cells@[ny as int]@);
                }
                if self.cells[ny][nx] != 0 {
                    count += 1;
                }
            }
            k += 1;
        }
        count
    }

    /// Advances the grid one step using Conway's Game of Life rules.
    pub fn game_of_life_step(&self) -> (next: Self)
        requires
            self@.wf(),
            self.width < isize::MAX,
            self.height < isize::MAX,
        ensures
            next@.wf(),
            next.width == self.width,
            next.height == self.height,
            next.wrap == self.wrap,
            forall|y: int, x: int|
                0 <= y < self.height && 0 <= x < self.width ==> #[trigger] next@.cells[y][x]
                    == self@.life_next(x, y),
    {
        let mut cells: Vec<Vec<u8>> = Vec::new();
        let mut y: usize = 0;
        while y < self.height
            invariant
                self@.wf(),
                self.width < isize::MAX,
                self.height < isize::MAX,
                y <= self.height,
                cells@.len() == y,
                forall|j: int| 0 <= j < y ==> (#[trigger] cells@[j])@.len() == self.width,
                forall|j: int, x: int|
                    0 <= j < y && 0 <= x < self.width ==> #[trigger] cells@[j]@[x]
                        == self@.life_next(x, j),
            decreases self.height - y,
        {
            let mut row: Vec<u8> = Vec::new();
            let mut x: usize = 0;
            while x < self.width
                invariant
                    self@.wf(),
                    self.width < isize::MAX,
                    self.height < isize::MAX,
                    y < self.height,
                    x <= self.width,
                    row@.len() == x,
                    forall|i: int| 0 <= i < x ==> #[trigger] row@[i] == self@.life_next(i, y as int),
                decreases self.width - x,
            {
                proof {
                    assert(self@.cells[y as int] == self.cells@[y as int]@);
                }
                let alive = self.cells[y][x] != 0;
                let neighbors = self.neighbor_count(x, y);
                let v: u8 = if (alive && (neighbors == 2 || neighbors == 3)) || (!alive && neighbors == 3) {
                    1
                } else {
                    0
                };
                row.push(v);
                x += 1;
            }
            cells.push(row);
            y += 1;
        }
        let next = Self { width: self.width, height: self.height, cells, wrap: self.wrap };
        proof {
            assert forall|j: int| 0 <= j < self.height implies (#[trigger] next@.cells[j]).len() == self.width by {
                assert(next@.cells[j] == next.cells@[j]@);
            }
            assert forall|j: int, x: int| 0 <= j < self.height && 0 <= x < self.width implies #[trigger] next@.cells[j][x]
                == self@.life_next(x, j) by {
                assert(next@.cells[j] == next.cells@[j]@);
            }
        }
        next
    }

    /// Applies Rule 110 to each row independently (1D CA).
    pub fn rule_110_step(&self) -> (next: Self)
        requires
            self@.wf(),
            self.wrap ==> self.width + self.width <= usize::MAX,
        ensures
            next@.wf(),
            next.width == self.width,
            next.height == self.height,
            next.wrap == self.wrap,
            forall|y: int, x: int|
                0 <= y < self.height && 0 <= x < self.width ==> #[trigger] next@.cells[y][x]
                    == self@.rule_110_next(x, y),
    {
        let mut cells: Vec<Vec<u8>> = Vec::new();
        let mut y: usize = 0;
        while y < self.height
            invariant
                self@.wf(),
                self.wrap ==> self.width + self.width <= usize::MAX,
                y <= self.height,
                cells@.len() == y,
                forall|j: int| 0 <= j < y ==> (#[trigger] cells@[j])@.len() == self.width,
                forall|j: int, x: int|
                    0 <= j < y && 0 <= x < self.width ==> #[trigger] cells@[j]@[x]
                        == self@.rule_110_next(x, j),
            decreases self.height - y,
        {
            let mut row: Vec<u8> = Vec::new();
            let mut x: usize = 0;
            proof {
                assert(self@.cells[y as int] == self.cells@[y as int]@);
            }
            while x < self.width
                invariant
                    self@.wf(),
                    self.wrap ==> self.width + self.width <= usize::MAX,
                    y < self.height,
                    x <= self.width,
                    row@.len() == x,
                    self@.cells[y as int] == self.cells@[y as int]@,
                    forall|i: int| 0 <= i < x ==> #[trigger] row@[i] == self@.rule_110_next(i, y as int),
                decreases self.width - x,
            {
                let left = if self.wrap {
                    self.cells[y][(x + self.width - 1) % self.width]
                } else if x > 0 {
                    self.cells[y][x - 1]
                } else {
                    0
                };
                let center = self.cells[y][x];
                let right = if self.wrap {
                    self.cells[y][(x + 1) % self.width]
                } else if x + 1 < self.width {
                    self.cells[y][x + 1]
                } else {
                    0
                };
                let pattern = ((left & 1) << 2) | ((center & 1) << 1) | (right & 1);
                proof {
                    assert(pattern < 8) by (bit_vector)
                        requires
                            pattern == ((left & 1) << 2) | ((center & 1) << 1) | (right & 1),
                    ;
                }
                let v = (0b01101110u8 >> pattern) & 1;
                proof {
                    assert(v == rule_110(left, center, right)) by (bit_vector)
                        requires
                            pattern == ((left & 1) << 2) | ((center & 1) << 1) | (right & 1),
                            v == (0b01101110u8 >> pattern) & 1,
                    ;
                }
                row.push(v);
                x += 1;
            }
            cells.push(row);
            y += 1;
        }
        let next = Self { width: self.width, height: self.height, cells, wrap: self.wrap };
        proof {
            assert forall|j: int| 0 <= j < self.height implies (#[trigger] next@.cells[j]).len() == self.width by {
                assert(next@.cells[j] == next.cells@[j]@);
            }
            assert forall|j: int, x: int| 0 <= j < self.height && 0 <= x < self.width implies #[trigger] next@.cells[j][x]
                == self@.rule_110_next(x, j) by {
                assert(next@.cells[j] == next.cells@[j]@);
            }
        }
        next
    }
}

/// Langton's Ant simulation.
pub struct LangtonAnt {
    pub x: i32,
    pub y: i32,
    /// Heading: 0 = north, 1 = east, 2 = south, 3 = west.
    pub direction: u8,
    pub grid: Grid,
}

/// The mathematical content of a [`LangtonAnt`].
pub struct AntModel {
    pub x: int,
    pub y: int,
    pub direction: int,
    pub grid: GridModel,
}

impl View for LangtonAnt {
    type V = AntModel;

    open spec fn view(&self) -> AntModel {
        AntModel {
            x: self.x as int,
            y: self.y as int,
            direction: self.direction as int,
            grid: self.grid@,
        }
    }
}

impl AntModel {
    /// The grid column under the ant (its `x` wrapped onto the grid).
    pub open spec fn cell_x(self) -> int {
        self.x % self.grid.width
    }

    /// The grid row under the ant (its `y` wrapped onto the grid).
    pub open spec fn cell_y(self) -> int {
        self.y % self.grid.height
    }

    /// Whether the ant stands on a black (non-zero) cell.
    pub open spec fn on_black(self) -> bool {
        self.grid.cells[self.cell_y()][self.cell_x()] != 0
    }

    /// The heading after the turn: right on white, left on black.
    pub open spec fn new_direction(self) -> int {
        if self.on_black() {
            (self.direction + 3) % 4
        } else {
            (self.direction + 1) % 4
        }
    }

    /// Whether one step can be taken without panicking: a non-empty grid whose
    /// sides fit in `i32`, a heading that does not overflow when turned, and a
    /// move that stays inside `i32`.
    pub open spec fn can_step(self) -> bool {
        &&& self.grid.wf()
        &&& 0 < self.grid.width <= i32::MAX
        &&& 0 < self.grid.height <= i32::MAX
        &&& self.direction + (if self.on_black() { 3int } else { 1int }) <= u8::MAX
        &&& self.new_direction() == 0 ==> self.y > i32::MIN
        &&& self.new_direction() == 1 ==> self.x < i32::MAX
        &&& self.new_direction() == 2 ==> self.y < i32::MAX
        &&& self.new_direction() == 3 ==> self.x > i32::MIN
    }

    /// The ant after one step: flip the cell it stands on, turn, move forward.
    pub open spec fn step(self) -> AntModel {
        let d = self.new_direction();
        let flipped: u8 = if self.on_black() { 0 } else { 1 };
        AntModel {
            x: if d == 1 { self.x + 1 } else if d == 3 { self.x - 1 } else { self.x },
            y: if d == 0 { self.y - 1 } else if d == 2 { self.y + 1 } else { self.y },
            direction: d,
            grid: GridModel {
                cells: self.grid.cells.update(
                    self.cell_y(),
                    self.grid.cells[self.cell_y()].update(self.cell_x(), flipped),
                ),
                ..self.grid
            },
        }
    }

    /// The ant after `k` steps.
    pub open spec fn steps(self, k: nat) -> AntModel
        decreases k,
    {
        if k == 0 {
            self
        } else {
            self.steps((k - 1) as nat).step()
        }
    }

    /// Whether `k` steps can be taken one after another without panicking.
    pub open spec fn can_run(self, k: nat) -> bool {
        forall|i: nat| i < k ==> #[trigger] self.steps(i).can_step()
    }
}

impl LangtonAnt {
    /// Creates a new Langton's Ant starting at the center of the grid,
    /// heading north.
    pub fn new(grid: Grid) -> (ant: Self)
        requires
            grid.width <= i32::MAX,
            grid.height <= i32::MAX,
        ensures
            ant.x == grid.width / 2,
            ant.y == grid.height / 2,
            ant.direction == 0,
            ant.grid@ == grid@,
    {
        let x = grid.width as i32 / 2;
        let y = grid.height as i32 / 2;
        Self { x, y, direction: 0, grid }
    }

    /// Executes one step of Langton's Ant.
    pub fn step(&mut self)
        requires
            old(self)@.can_step(),
        ensures
            final(self)@ == old(self)@.step(),
    {
        let w = self.grid.width as i32;
        let h = self.grid.height as i32;
        let gx = self.x.checked_rem_euclid(w).unwrap() as usize;
        let gy = self.y.checked_rem_euclid(h).unwrap() as usize;
        proof {
            vstd::arithmetic::div_mod::lemma_mod_bound(self.x as int, w as int);
            vstd::arithmetic::div_mod::lemma_mod_bound(self.y as int, h as int);
            assert(self.grid@.cells[gy as int] == self.grid.cells@[gy as int]@);
        }
        let ghost m = self@;
        let cell = self.grid.cells[gy][gx];
        let mut row = self.grid.cells[gy].clone();
        if cell == 0 {
            // White cell: turn right (clockwise), flip to black.
            self.direction = (self.direction + 1) % 4;
            row.set(gx, 1);
        } else {
            // Black cell: turn left (counter-clockwise), flip to white.
            self.direction = (self.direction + 3) % 4;
            row.set(gx, 0);
        }
        self.grid.cells.set(gy, row);
        // Move forward
        match self.direction {
            0 => self.y = self.y - 1,
            1 => self.x = self.x + 1,
            2 => self.y = self.y + 1,
            3 => self.x = self.x - 1,
            _ => {},
        }
        proof {
            assert(self@.grid.cells =~= m.step().grid.cells);
        }
    }

    /// Runs the ant for a given number of steps.
    pub fn run(&mut self, steps: usize)
        requires
            old(self)@.can_run(steps as nat),
        ensures
            final(self)@ == old(self)@.steps(steps as nat),
    {
        let ghost start = self@;
        let mut i: usize = 0;
        while i < steps
            invariant
                i <= steps,
                start.can_run(steps as nat),
                self@ == start.steps(i as nat),
            decreases steps - i,
        {
            proof {
                assert(start.steps(i as nat).can_step());
            }
            self.step();
            i += 1;
        }
    }
}

/// The RGB bytes of rows `0..rows` of a grid: three bytes per cell, the
/// living colour for non-zero cells and the dead colour otherwise.
pub open spec fn rgb_rows(g: GridModel, rows: int, alive: [u8; 3], dead: [u8; 3]) -> Seq<u8>
    decreases rows,
{
    if rows <= 0 {
        Seq::empty()
    } else {
        rgb_rows(g, rows - 1, alive, dead) + rgb_row(g.cells[rows - 1], g.width, alive, dead)
    }
}

/// The RGB bytes of the first `n` cells of a row.
pub open spec fn rgb_row(row: Seq<u8>, n: int, alive: [u8; 3], dead: [u8; 3]) -> Seq<u8>
    decreases n,
{
    if n <= 0 {
        Seq::empty()
    } else {
        let c = if row[n - 1] != 0 { alive } else { dead };
        rgb_row(row, n - 1, alive, dead) + seq![c[0], c[1], c[2]]
    }
}

/// The grayscale bytes of rows `0..rows` of a grid: 255 for a non-zero cell,
/// 0 otherwise.
pub open spec fn gray_rows(g: GridModel, rows: int) -> Seq<u8>
    decreases rows,
{
    if rows <= 0 {
        Seq::empty()
    } else {
        gray_rows(g, rows - 1) + gray_row(g.cells[rows - 1], g.width)
    }
}

/// The grayscale bytes of the first `n` cells of a row.
pub open spec fn gray_row(row: Seq<u8>, n: int) -> Seq<u8>
    decreases n,
{
    if n <= 0 {
        Seq::empty()
    } else {
        gray_row(row, n - 1).push(if row[n - 1] != 0 { 255u8 } else { 0u8 })
    }
}

/// Converts a grid to an RGB image buffer.
pub fn to_rgb(grid: &Grid, alive_color: [u8; 3], dead_color: [u8; 3]) -> (buf: Vec<u8>)
    requires
        grid@.wf(),
    ensures
        buf@ == rgb_rows(grid@, grid.height as int, alive_color, dead_color),
{
    let mut buf: Vec<u8> = Vec::new();
    let mut y: usize = 0;
    while y < grid.height
        invariant
            grid@.wf(),
            y <= grid.height,
            buf@ == rgb_rows(grid@, y as int, alive_color, dead_color),
        decreases grid.height - y,
    {
        let ghost before = buf@;
        proof {
            assert(grid@.cells[y as int] == grid.cells@[y as int]@);
        }
        let mut x: usize = 0;
        while x < grid.width
            invariant
                grid@.wf(),
                y < grid.height,
                x <= grid.width,
                grid@.cells[y as int] == grid.cells@[y as int]@,
                buf@ == before + rgb_row(grid@.cells[y as int], x as int, alive_color, dead_color),
            decreases grid.width - x,
        {
            let color = if grid.cells[y][x] != 0 {
                alive_color
            } else {
                dead_color
            };
            buf.push(color[0]);
            buf.push(color[1]);
            buf.push(color[2]);
            x += 1;
            proof {
                assert(buf@ =~= before + rgb_row(grid@.cells[y as int], x as int, alive_color, dead_color));
            }
        }
        y += 1;
    }
    buf
}

/// Converts a grid to a grayscale image buffer (0 or 255 per cell).
pub fn to_grayscale(grid: &Grid) -> (buf: Vec<u8>)
    requires
        grid@.wf(),
    ensures
        buf@ == gray_rows(grid@, grid.height as int),
{
    let mut buf: Vec<u8> = Vec::new();
    let mut y: usize = 0;
    while y < grid.height
        invariant
            grid@.wf(),
            y <= grid.height,
            buf@ == gray_rows(grid@, y as int),
        decreases grid.height - y,
    {
        let ghost before = buf@;
        proof {
            assert(grid@.cells[y as int] == grid.cells@[y as int]@);
        }
        let mut x: usize = 0;
        while x < grid.width
            invariant
                grid@.wf(),
                y < grid.height,
                x <= grid.width,
                grid@.cells[y as int] == grid.cells@[y as int]@,
                buf@ == before + gray_row(grid@.cells[y as int], x as int),
            decreases grid.width - x,
        {
            buf.push(if grid.cells[y][x] != 0 { 255 } else { 0 });
            x += 1;
            proof {
                assert(buf@ =~= before + gray_row(grid@.cells[y as int], x as int));
            }
        }
        y += 1;
    }
    buf
}

/// The cell an ant leaves behind is flipped: black if it stood on white,
/// white if it stood on black.
pub proof fn lemma_ant_flips_cell(a: AntModel)
    requires
        a.can_step(),
    ensures
        (a.step().grid.cells[a.cell_y()][a.cell_x()] != 0) == !a.on_black(),
{
    vstd::arithmetic::div_mod::lemma_mod_bound(a.x, a.grid.width);
    vstd::arithmetic::div_mod::lemma_mod_bound(a.y, a.grid.height);
}

/// Bit `k` of the binary expansion of `n`.
pub open spec fn binary_digit(n: nat, k: nat) -> nat
    decreases k,
{
    if k == 0 {
        n % 2
    } else {
        binary_digit(n / 2, (k - 1) as nat)
    }
}

/// Rule 110 is Wolfram's rule number 110: the new cell is bit
/// `4 * left + 2 * centre + right` of the number 110, so a neighbourhood
/// of three living cells (bit 7) dies and one of three dead cells (bit 0)
/// stays dead.
pub proof fn lemma_rule_110_is_wolfram_110(left: u8, center: u8, right: u8)
    ensures
        rule_110(left, center, right) as nat == binary_digit(
            110,
            (4 * (left % 2) + 2 * (center % 2) + right % 2) as nat,
        ),
{
    reveal_with_fuel(binary_digit, 8);
    let k = (4 * (left % 2) + 2 * (center % 2) + right % 2) as nat;
    assert(binary_digit(110, 0) == 0);
    assert(binary_digit(110, 1) == 1);
    assert(binary_digit(110, 2) == 1);
    assert(binary_digit(110, 3) == 1);
    assert(binary_digit(110, 4) == 0);
    assert(binary_digit(110, 5) == 1);
    assert(binary_digit(110, 6) == 1);
    assert(binary_digit(110, 7) == 0);
}

/// Langton's ant turns a quarter clockwise on a white cell and a quarter
/// counter-clockwise on a black one (headings 0 north, 1 east, 2 south,
/// 3 west), then moves one cell forward on the new heading (north is
/// towards smaller `y`), and the cell it left changes colour.
pub proof fn lemma_ant_turns(a: AntModel)
    requires
        0 <= a.direction < 4,
        a.grid.wf(),
        a.grid.width > 0,
        a.grid.height > 0,
    ensures
        ({
            let s = a.step();
            &&& a.on_black() && a.direction == 0 ==> s.direction == 3
            &&& a.on_black() && a.direction == 1 ==> s.direction == 0
            &&& a.on_black() && a.direction == 2 ==> s.direction == 1
            &&& a.on_black() && a.direction == 3 ==> s.direction == 2
            &&& !a.on_black() && a.direction == 0 ==> s.direction == 1
            &&& !a.on_black() && a.direction == 1 ==> s.direction == 2
            &&& !a.on_black() && a.direction == 2 ==> s.direction == 3
            &&& !a.on_black() && a.direction == 3 ==> s.direction == 0
            &&& s.direction == 0 ==> s.x == a.x && s.y == a.y - 1
            &&& s.direction == 1 ==> s.x == a.x + 1 && s.y == a.y
            &&& s.direction == 2 ==> s.x == a.x && s.y == a.y + 1
            &&& s.direction == 3 ==> s.x == a.x - 1 && s.y == a.y
            &&& (s.grid.cells[a.cell_y()][a.cell_x()] != 0) == !a.on_black()
        }),
{
    vstd::arithmetic::div_mod::lemma_mod_bound(a.x, a.grid.width);
    vstd::arithmetic::div_mod::lemma_mod_bound(a.y, a.grid.height);
}

/// Running `m` steps and then `n` more is running `m + n` steps, and the
/// `m + n` steps can be taken exactly when the first `m` can and the next
/// `n` can from where they end.
pub proof fn lemma_run_compose(a: AntModel, m: nat, n: nat)
    ensures
        a.steps(m).steps(n) == a.steps(m + n),
        a.can_run(m + n) <==> (a.can_run(m) && a.steps(m).can_run(n)),
{
    lemma_run_compose_steps(a, m, n);
    assert forall|i: nat| i < n implies #[trigger] a.steps(m).steps(i) == a.steps(m + i) by {
        lemma_run_compose_steps(a, m, i);
    }
    if a.can_run(m + n) {
        assert forall|i: nat| i < m implies #[trigger] a.steps(i).can_step() by {
            assert(a.steps(i).can_step());
        }
        assert forall|i: nat| i < n implies #[trigger] a.steps(m).steps(i).can_step() by {
            assert(a.steps((m + i) as nat).can_step());
        }
    }
    if a.can_run(m) && a.steps(m).can_run(n) {
        assert forall|i: nat| i < m + n implies #[trigger] a.steps(i).can_step() by {
            if i >= m {
                let j = (i - m) as nat;
                assert(a.steps(m).steps(j).can_step());
                assert(a.steps(m + j) == a.steps(i));
            }
        }
    }
}

proof fn lemma_run_compose_steps(a: AntModel, m: nat, n: nat)
    ensures
        a.steps(m).steps(n) == a.steps(m + n),
    decreases n,
{
    if n > 0 {
        lemma_run_compose_steps(a, m, (n - 1) as nat);
        assert(a.steps(m + n) == a.steps((m + n - 1) as nat).step());
    }
}

impl Grid {
    /// A field-by-field copy of the grid.
    pub fn duplicate(&self) -> (g: Grid)
        ensures
            g@ == self@,
    {
        let mut cells: Vec<Vec<u8>> = Vec::new();
        let mut i: usize = 0;
        while i < self.cells.len()
            invariant
                i <= self.cells@.len(),
                cells@.len() == i,
                forall|j: int| 0 <= j < i ==> (#[trigger] cells@[j])@ == self.cells@[j]@,
            decreases self.cells@.len() - i,
        {
            let row = self.cells[i].clone();
            proof {
                assert(row@ =~= self.cells@[i as int]@);
            }
            cells.push(row);
            i += 1;
        }
        let g = Grid { width: self.width, height: self.height, cells, wrap: self.wrap };
        proof {
            assert(g@.cells =~= self@.cells);
        }
        g
    }
}

/// Automaton rule type.
#[derive(Debug, Clone, Copy, PartialEq, Structural)]
pub enum CARule {
    GameOfLife,
    Rule110,
    LangtonAnt,
}

/// Animates a cellular automaton, producing grayscale image frames.
pub struct CAAnimator {
    pub grid: Grid,
    pub rule: CARule,
    pub frame_count: usize,
    /// The ant of a Langton's Ant animator.
    pub langton_ant: Option<LangtonAnt>,
}

impl CAAnimator {
    /// The ant driven by a Langton's Ant animator, if any.
    pub open spec fn ant(&self) -> Option<AntModel> {
        match self.langton_ant {
            Some(a) => Some(a@),
            None => None,
        }
    }

    /// Whether the next frame can be produced without panicking.
    pub open spec fn can_advance(&self) -> bool {
        &&& self.grid@.wf()
        &&& self.frame_count < usize::MAX
        &&& match self.rule {
            CARule::GameOfLife => self.grid.width < isize::MAX && self.grid.height < isize::MAX,
            CARule::Rule110 => self.grid.wrap ==> self.grid.width + self.grid.width <= usize::MAX,
            CARule::LangtonAnt => match self.ant() {
                Some(a) => a.can_step(),
                None => true,
            },
        }
    }

    /// Creates an animator; a Langton's Ant animator starts an ant in the
    /// middle of (a copy of) the grid.
    pub fn new(grid: Grid, rule: CARule) -> (a: Self)
        requires
            rule == CARule::LangtonAnt ==> grid.width <= i32::MAX && grid.height <= i32::MAX,
        ensures
            a.grid@ == grid@,
            a.rule == rule,
            a.frame_count == 0,
            rule == CARule::LangtonAnt ==> a.ant() == Some(
                AntModel {
                    x: grid.width as int / 2,
                    y: grid.height as int / 2,
                    direction: 0,
                    grid: grid@,
                },
            ),
            rule != CARule::LangtonAnt ==> a.ant() is None,
    {
        let langton_ant = if rule == CARule::LangtonAnt {
            Some(LangtonAnt::new(grid.duplicate()))
        } else {
            None
        };
        Self { grid, rule, frame_count: 0, langton_ant }
    }

    /// Steps the automaton and returns a grayscale image of the new grid.
    pub fn next_frame(&mut self) -> (frame: Vec<u8>)
        requires
            old(self).can_advance(),
        ensures
            final(self).rule == old(self).rule,
            final(self).frame_count == old(self).frame_count + 1,
            final(self).grid@.wf(),
            frame@ == gray_rows(final(self).grid@, final(self).grid.height as int),
            old(self).rule == CARule::GameOfLife ==> {
                &&& final(self).grid@.width == old(self).grid@.width
                &&& final(self).grid@.height == old(self).grid@.height
                &&& final(self).grid@.wrap == old(self).grid@.wrap
                &&& forall|y: int, x: int|
                    0 <= y < old(self).grid.height && 0 <= x < old(self).grid.width
                        ==> #[trigger] final(self).grid@.cells[y][x] == old(self).grid@.life_next(x, y)
            },
            old(self).rule == CARule::Rule110 ==> {
                &&& final(self).grid@.width == old(self).grid@.width
                &&& final(self).grid@.height == old(self).grid@.height
                &&& final(self).grid@.wrap == old(self).grid@.wrap
                &&& forall|y: int, x: int|
                    0 <= y < old(self).grid.height && 0 <= x < old(self).grid.width
                        ==> #[trigger] final(self).grid@.cells[y][x] == old(self).grid@.rule_110_next(x, y)
            },
            old(self).rule == CARule::LangtonAnt ==> match old(self).ant() {
                Some(a) => final(self).ant() == Some(a.step()) && final(self).grid@ == a.step().grid,
                None => final(self).ant() is None && final(self).grid@ == old(self).grid@,
            },
            old(self).rule != CARule::LangtonAnt ==> final(self).ant() == old(self).ant(),
    {
        match self.rule {
            CARule::GameOfLife => {
                self.grid = self.grid.game_of_life_step();
            },
            CARule::Rule110 => {
                self.grid = self.grid.rule_110_step();
            },
            CARule::LangtonAnt => {
                let taken = self.langton_ant.take();
                match taken {
                    Some(mut ant) => {
                        ant.step();
                        self.grid = ant.grid.duplicate();
                        self.langton_ant = Some(ant);
                    },
                    None => {},
                }
            },
        }
        self.frame_count += 1;
        to_grayscale(&self.grid)
    }
}

} // verus!

//! 2D Conway's Game of Life and variants.
//!
//! A generic B/S (birth/survival) rule system covering Conway, HighLife,
//! Day & Night, Seeds and Mazectric, over a flat row-major grid that either
//! wraps at its edges (torus) or treats the outside as dead.

use vstd::prelude::*;

verus! {

// ── CellState ─────────────────────────────────────────────────────────────────

/// The state of a single cell on the grid.
#[derive(Debug, Clone, Copy, PartialEq, Eq, Structural)]
pub enum CellState {
    Dead,
    Alive,
}

impl CellState {
    pub fn is_alive(self) -> (b: bool)
        ensures
            b == (self == CellState::Alive),
    {
        match self {
            CellState::Alive => true,
            CellState::Dead => false,
        }
    }
}

// ── RuleSet ───────────────────────────────────────────────────────────────────

/// Birth/Survival rule in the B/S notation.
///
/// - a dead cell with exactly `n` alive neighbours is born when `n` is in `birth`
/// - a living cell with exactly `n` alive neighbours survives when `n` is in `survival`
#[derive(Debug, Clone)]
pub struct RuleSet {
    /// Neighbour counts at which a dead cell comes alive.
    pub birth: Vec<u8>,
    /// Neighbour counts at which a living cell stays alive.
    pub survival: Vec<u8>,
}

/// What a cell becomes, given whether it is alive and how many alive
/// neighbours it has.
pub open spec fn rule_outcome(birth: Seq<u8>, survival: Seq<u8>, alive: bool, n: int) -> CellState {
    if alive {
        if exists|i: int| 0 <= i < survival.len() && survival[i] == n {
            CellState::Alive
        } else {
            CellState::Dead
        }
    } else {
        if exists|i: int| 0 <= i < birth.len() && birth[i] == n {
            CellState::Alive
        } else {
            CellState::Dead
        }
    }
}

impl RuleSet {
    fn birth_set(counts: &[u8]) -> (v: Vec<u8>)
        ensures
            v@ == counts@,
    {
        let mut v: Vec<u8> = Vec::new();
        let mut i: usize = 0;
        while i < counts.len()
            invariant
                i <= counts@.len(),
                v@ == counts@.subrange(0, i as int),
            decreases counts@.len() - i,
        {
            v.push(counts[i]);
            i += 1;
        }
        v
    }

    /// Conway's Game of Life — B3/S23
    pub fn conway() -> (r: Self)
        ensures
            r.birth@ == seq![3u8],
            r.survival@ == seq![2u8, 3u8],
    {
        let r = RuleSet { birth: Self::birth_set(&[3]), survival: Self::birth_set(&[2, 3]) };
        r
    }

    /// HighLife — B36/S23
    pub fn high_life() -> (r: Self)
        ensures
            r.birth@ == seq![3u8, 6u8],
            r.survival@ == seq![2u8, 3u8],
    {
        RuleSet { birth: Self::birth_set(&[3, 6]), survival: Self::birth_set(&[2, 3]) }
    }

    /// Day and Night — B3678/S34678
    pub fn day_and_night() -> (r: Self)
        ensures
            r.birth@ == seq![3u8, 6u8, 7u8, 8u8],
            r.survival@ == seq![3u8, 4u8, 6u8, 7u8, 8u8],
    {
        RuleSet {
            birth: Self::birth_set(&[3, 6, 7, 8]),
            survival: Self::birth_set(&[3, 4, 6, 7, 8]),
        }
    }

    /// Seeds — B2/S (nothing survives)
    pub fn seeds() -> (r: Self)
        ensures
            r.birth@ == seq![2u8],
            r.survival@ == Seq::<u8>::empty(),
    {
        RuleSet { birth: Self::birth_set(&[2]), survival: Vec::new() }
    }

    /// Mazectric — B3/S1234
    pub fn mazectric() -> (r: Self)
        ensures
            r.birth@ == seq![3u8],
            r.survival@ == seq![1u8, 2u8, 3u8, 4u8],
    {
        RuleSet { birth: Self::birth_set(&[3]), survival: Self::birth_set(&[1, 2, 3, 4]) }
    }

    /// Whether a dead cell with `n` alive neighbours is born.
    pub fn births(&self, n: u8) -> (b: bool)
        ensures
            b == self.birth@.contains(n),
    {
        let mut i: usize = 0;
        while i < self.birth.len()
            invariant
                i <= self.birth@.len(),
                forall|j: int| 0 <= j < i ==> self.birth@[j] != n,
            decreases self.birth@.len() - i,
        {
            if self.birth[i] == n {
                return true;
            }
            i += 1;
        }
        false
    }

    /// Whether a living cell with `n` alive neighbours survives.
    pub fn survives(&self, n: u8) -> (b: bool)
        ensures
            b == self.survival@.contains(n),
    {
        let mut i: usize = 0;
        while i < self.survival.len()
            invariant
                i <= self.survival@.len(),
                forall|j: int| 0 <= j < i ==> self.survival@[j] != n,
            decreases self.survival@.len() - i,
        {
            if self.survival[i] == n {
                return true;
            }
            i += 1;
        }
        false
    }
}

// ── LCG ───────────────────────────────────────────────────────────────────────

/// The generator state after `n` steps from seed `seed` (the initial state
/// is `seed + 1`, wrapping).
pub open spec fn lcg_state(seed: u64, n: nat) -> u64
    decreases n,
{
    if n == 0 {
        seed.wrapping_add(1)
    } else {
        crate::flow_field::lcg_step(lcg_state(seed, (n - 1) as nat))
    }
}

/// Linear congruential generator for random fills.
pub struct Lcg {
    pub state: u64,
}

impl Lcg {
    /// A generator whose state is `seed + 1` (wrapping).
    pub fn new(seed: u64) -> (g: Self)
        ensures
            g.state == lcg_state(seed, 0),
    {
        Lcg { state: seed.wrapping_add(1) }
    }

    /// Advances the state and returns its upper 32 bits.
    pub fn next_bits(&mut self) -> (v: u64)
        ensures
            final(self).state == crate::flow_field::lcg_step(old(self).state),
            v == final(self).state >> 32u64,
    {
        self.state = self.state.wrapping_mul(crate::flow_field::LCG_MUL).wrapping_add(crate::flow_field::LCG_INC);
        self.state >> 32
    }
}

// ── CaGrid ────────────────────────────────────────────────────────────────────

/// A 2D cellular automaton grid.
#[derive(Debug, Clone)]
pub struct CaGrid {
    pub width: usize,
    pub height: usize,
    /// Row-major flat storage: cells[y * width + x]
    pub cells: Vec<CellState>,
    /// Whether to wrap at edges (toroidal topology) instead of treating outside as dead.
    pub wrap: bool,
}

/// The eight Moore-neighbourhood offsets, in the order rows `dy = -1, 0, 1`
/// and within a row `dx = -1, 0, 1`, skipping the centre.
pub open spec fn moore_offsets() -> Seq<(int, int)> {
    seq![(-1int, -1int), (0, -1), (1, -1), (-1, 0), (1, 0), (-1, 1), (0, 1), (1, 1)]
}

/// The mathematical content of a grid: its dimensions, edge behaviour and
/// row-major cells.
pub struct GridModel {
    pub width: int,
    pub height: int,
    pub wrap: bool,
    pub cells: Seq<CellState>,
}

impl View for CaGrid {
    type V = GridModel;

    open spec fn view(&self) -> GridModel {
        GridModel {
            width: self.width as int,
            height: self.height as int,
            wrap: self.wrap,
            cells: self.cells@,
        }
    }
}

impl GridModel {
    /// Whether the (possibly out-of-range) position `(x, y)` holds a living
    /// cell: wrapped onto the torus when `wrap`, dead outside otherwise.
    pub open spec fn alive_at(self, x: int, y: int) -> bool {
        if self.width == 0 || self.height == 0 {
            false
        } else if self.wrap {
            self.cells[(y % self.height) * self.width + x % self.width]
                == CellState::Alive
        } else if 0 <= x < self.width && 0 <= y < self.height {
            self.cells[y * self.width + x] == CellState::Alive
        } else {
            false
        }
    }

    /// The cell that `get(x, y)` reports.
    pub open spec fn cell_at(self, x: int, y: int) -> CellState {
        if self.alive_at(x, y) {
            CellState::Alive
        } else {
            CellState::Dead
        }
    }

    /// Number of living cells among the first `k` Moore offsets around `(x, y)`.
    pub open spec fn count_first(self, x: int, y: int, k: int) -> nat
        decreases k,
    {
        if k <= 0 {
            0
        } else {
            let o = moore_offsets()[k - 1];
            self.count_first(x, y, k - 1) + if self.alive_at(x + o.0, y + o.1) {
                1nat
            } else {
                0nat
            }
        }
    }

    /// Number of living Moore neighbours of `(x, y)`.
    pub open spec fn neighbors(self, x: int, y: int) -> nat {
        self.count_first(x, y, 8)
    }

    /// The cells of the next generation under the given birth/survival sets.
    pub open spec fn next_cells(self, birth: Seq<u8>, survival: Seq<u8>) -> Seq<CellState> {
        Seq::new(
            (self.width * self.height) as nat,
            |i: int|
                rule_outcome(
                    birth,
                    survival,
                    self.alive_at(i % self.width, i / self.width),
                    self.neighbors(i % self.width, i / self.width) as int,
                ),
        )
    }

}

impl CaGrid {
    /// The storage holds exactly one cell per grid position.
    pub open spec fn wf(&self) -> bool {
        &&& self.cells@.len() == self.width * self.height
        &&& self.width * self.height <= usize::MAX
    }

}

impl CaGrid {
    /// Create an all-dead grid.
    pub fn new(width: usize, height: usize, wrap: bool) -> (g: Self)
        requires
            width * height <= usize::MAX,
        ensures
            g.wf(),
            g.width == width,
            g.height == height,
            g.wrap == wrap,
            forall|i: int| 0 <= i < g.cells@.len() ==> g.cells@[i] == CellState::Dead,
    {
        let n = width * height;
        let mut cells: Vec<CellState> = Vec::with_capacity(n);
        let mut i: usize = 0;
        while i < n
            invariant
                i <= n,
                cells@.len() == i,
                forall|j: int| 0 <= j < i ==> cells@[j] == CellState::Dead,
            decreases n - i,
        {
            cells.push(CellState::Dead);
            i += 1;
        }
        CaGrid { width, height, cells, wrap }
    }

    /// Fills the cells in order from a generator seeded with `seed`: a cell
    /// comes alive when the upper 32 bits of the generator's next state are
    /// below `threshold` (`⌈density · 2³²⌉` for a density in `[0, 1]`), and
    /// dies otherwise.
    pub fn randomize_below(&mut self, threshold: u64, seed: u64)
        ensures
            final(self).width == old(self).width,
            final(self).height == old(self).height,
            final(self).wrap == old(self).wrap,
            final(self).cells@.len() == old(self).cells@.len(),
            forall|i: int|
                0 <= i < old(self).cells@.len() ==> #[trigger] final(self).cells@[i] == if (lcg_state(seed, (i + 1) as nat)
                    >> 32u64) < threshold {
                    CellState::Alive
                } else {
                    CellState::Dead
                },
    {
        let mut lcg = Lcg::new(seed);
        let mut i: usize = 0;
        while i < self.cells.len()
            invariant
                self.width == old(self).width,
                self.height == old(self).height,
                self.wrap == old(self).wrap,
                self.cells@.len() == old(self).cells@.len(),
                i <= self.cells@.len(),
                lcg.state == lcg_state(seed, i as nat),
                forall|j: int|
                    0 <= j < i ==> #[trigger] self.cells@[j] == if (lcg_state(seed, (j + 1) as nat) >> 32u64)
                        < threshold {
                        CellState::Alive
                    } else {
                        CellState::Dead
                    },
            decreases self.cells@.len() - i,
        {
            let v = lcg.next_bits();
            let cell = if v < threshold {
                CellState::Alive
            } else {
                CellState::Dead
            };
            self.cells.set(i, cell);
            i += 1;
        }
    }

    /// Set the cell at `(x, y)`; positions outside the grid are ignored.
    pub fn set(&mut self, x: usize, y: usize, state: CellState)
        requires
            old(self).wf(),
        ensures
            final(self).wf(),
            final(self).width == old(self).width,
            final(self).height == old(self).height,
            final(self).wrap == old(self).wrap,
            x < old(self).width && y < old(self).height ==> final(self).cells@ == old(
                self,
            ).cells@.update(y * old(self).width + x, state),
            !(x < old(self).width && y < old(self).height) ==> final(self).cells@ == old(
                self,
            ).cells@,
    {
        if x < self.width && y < self.height {
            proof {
                lemma_row_major_index(x as int, y as int, self.width as int, self.height as int);
            }
            let i = y * self.width + x;
            self.cells.set(i, state);
        }
    }

    /// Get the cell at `(x, y)`.
    ///
    /// Returns `Dead` if out-of-bounds when `wrap == false`; wraps otherwise.
    pub fn get(&self, x: usize, y: usize) -> (c: CellState)
        requires
            self.wf(),
        ensures
            c == self@.cell_at(x as int, y as int),
    {
        if self.width == 0 || self.height == 0 {
            return CellState::Dead;
        }
        if self.wrap {
            let wx = x % self.width;
            let wy = y % self.height;
            proof {
                lemma_row_major_index(wx as int, wy as int, self.width as int, self.height as int);
            }
            self.cells[wy * self.width + wx]
        } else {
            if x < self.width && y < self.height {
                proof {
                    lemma_row_major_index(x as int, y as int, self.width as int, self.height as int);
                }
                self.cells[y * self.width + x]
            } else {
                CellState::Dead
            }
        }
    }

    /// Whether the neighbour position `(nx, ny)` (one step away from a
    /// position inside `isize`) holds a living cell.
    fn alive_at_signed(&self, nx: isize, ny: isize) -> (b: bool)
        requires
            self.wf(),
            nx >= -1,
            ny >= -1,
            self.wrap ==> self.width > 0 && self.height > 0,
        ensures
            b == self@.alive_at(nx as int, ny as int),
    {
        if self.width == 0 || self.height == 0 {
            return false;
        }
        if self.wrap {
            let wx: usize = if nx < 0 { self.width - 1 } else { (nx as usize) % self.width };
            let wy: usize = if ny < 0 { self.height - 1 } else { (ny as usize) % self.height };
            proof {
                lemma_row_major_index(wx as int, wy as int, self.width as int, self.height as int);
                if nx < 0 {
                    assert((nx as int) % (self.width as int) == self.width - 1) by (nonlinear_arith)
                        requires nx == -1, self.width > 0;
                }
                if ny < 0 {
                    assert((ny as int) % (self.height as int) == self.height - 1) by (nonlinear_arith)
                        requires ny == -1, self.height > 0;
                }
            }
            self.cells[wy * self.width + wx].is_alive()
        } else if nx >= 0 && (nx as usize) < self.width && ny >= 0 && (ny as usize) < self.height {
            let xu = nx as usize;
            let yu = ny as usize;
            proof {
                lemma_row_major_index(xu as int, yu as int, self.width as int, self.height as int);
            }
            self.cells[yu * self.width + xu].is_alive()
        } else {
            false
        }
    }

    /// Count alive Moore (8-connected) neighbours of cell `(x, y)`.
    pub fn neighbor_count(&self, x: usize, y: usize) -> (count: u8)
        requires
            self.wf(),
            x < isize::MAX,
            y < isize::MAX,
            self.wrap ==> self.width > 0 && self.height > 0,
        ensures
            count == self@.neighbors(x as int, y as int),
    {
        let offsets: [(isize, isize); 8] = [(-1, -1), (0, -1), (1, -1), (-1, 0), (1, 0), (-1, 1), (0, 1), (1, 1)];
        let xi = x as isize;
        let yi = y as isize;
        let mut count: u8 = 0;
        let mut k: usize = 0;
        while k < 8
            invariant
                k <= 8,
                count == self@.count_first(x as int, y as int, k as int),
                count <= k,
                xi == x,
                yi == y,
                x < isize::MAX,
                y < isize::MAX,
                self.wf(),
                self.wrap ==> self.width > 0 && self.height > 0,
                forall|j: int|
                    0 <= j < 8 ==> (#[trigger] offsets@[j]).0 == moore_offsets()[j].0
                        && offsets@[j].1 == moore_offsets()[j].1,
            decreases 8 - k,
        {
            let (dx, dy) = offsets[k];
            if self.alive_at_signed(xi + dx, yi + dy) {
                count += 1;
            }
            k += 1;
        }
        count
    }

    /// Compute the next generation according to `rules`.
    pub fn step(&self, rules: &RuleSet) -> (next: CaGrid)
        requires
            self.wf(),
            self.width < isize::MAX,
            self.height < isize::MAX,
        ensures
            next.wf(),
            next.width == self.width,
            next.height == self.height,
            next.wrap == self.wrap,
            next.cells@ == self@.next_cells(rules.birth@, rules.survival@),
    {
        let mut next = CaGrid::new(self.width, self.height, self.wrap);
        let ghost target = self@.next_cells(rules.birth@, rules.survival@);
        let mut y: usize = 0;
        while y < self.height
            invariant
                self.wf(),
                self.width < isize::MAX,
                self.height < isize::MAX,
                y <= self.height,
                next.wf(),
                next.width == self.width,
                next.height == self.height,
                next.wrap == self.wrap,
                target == self@.next_cells(rules.birth@, rules.survival@),
                forall|i: int| 0 <= i < y * self.width ==> next.cells@[i] == #[trigger] target[i],
            decreases self.height - y,
        {
            let mut x: usize = 0;
            while x < self.width
                invariant
                    self.wf(),
                    self.width < isize::MAX,
                    self.height < isize::MAX,
                    y < self.height,
                    x <= self.width,
                    next.wf(),
                    next.width == self.width,
                    next.height == self.height,
                    next.wrap == self.wrap,
                    target == self@.next_cells(rules.birth@, rules.survival@),
                    forall|i: int|
                        0 <= i < y * self.width + x ==> next.cells@[i] == #[trigger] target[i],
                decreases self.width - x,
            {
                let n = self.neighbor_count(x, y);
                let alive = self.get(x, y).is_alive();
                let new_state = if alive {
                    if rules.survives(n) {
                        CellState::Alive
                    } else {
                        CellState::Dead
                    }
                } else {
                    if rules.births(n) {
                        CellState::Alive
                    } else {
                        CellState::Dead
                    }
                };
                proof {
                    lemma_row_major_index(x as int, y as int, self.width as int, self.height as int);
                    let i = y * self.width + x;
                    lemma_row_major_split(x as int, y as int, self.width as int);
                    vstd::arithmetic::div_mod::lemma_small_mod(x as nat, self.width as nat);
                    vstd::arithmetic::div_mod::lemma_small_mod(y as nat, self.height as nat);
                    assert(self@.alive_at(x as int, y as int) == alive);
                    assert(target[i] == new_state);
                }
                next.set(x, y, new_state);
                x += 1;
            }
            proof {
                assert((y + 1) * self.width == y * self.width + self.width) by (nonlinear_arith);
            }
            y += 1;
        }
        proof {
            assert(next.cells@ =~= target);
        }
        next
    }
}


/// Number of living cells in a sequence of cells.
pub open spec fn count_alive(s: Seq<CellState>) -> nat
    decreases s.len(),
{
    if s.len() == 0 {
        0
    } else {
        count_alive(s.drop_last()) + if s.last() == CellState::Alive {
            1nat
        } else {
            0nat
        }
    }
}

/// The RGB bytes of a cell sequence: three bytes per cell, the living
/// colour for living cells and the dead colour otherwise.
pub open spec fn rgb_bytes(s: Seq<CellState>, alive: (u8, u8, u8), dead: (u8, u8, u8)) -> Seq<u8>
    decreases s.len(),
{
    if s.len() == 0 {
        Seq::empty()
    } else {
        let c = if s.last() == CellState::Alive { alive } else { dead };
        rgb_bytes(s.drop_last(), alive, dead) + seq![c.0, c.1, c.2]
    }
}

/// The ASCII rendering of rows `0..rows` of a `width`-wide grid: `#` for a
/// living cell, `.` for a dead one, rows separated (not terminated) by `\n`.
pub open spec fn ascii_rows(g: GridModel, rows: int) -> Seq<char>
    decreases rows,
{
    if rows <= 0 {
        Seq::empty()
    } else {
        let prefix = ascii_rows(g, rows - 1);
        let sep = if rows > 1 { seq!['\n'] } else { Seq::<char>::empty() };
        prefix + sep + ascii_row(g, rows - 1, g.width)
    }
}

/// The first `n` characters of row `y` of the ASCII rendering.
pub open spec fn ascii_row(g: GridModel, y: int, n: int) -> Seq<char>
    decreases n,
{
    if n <= 0 {
        Seq::empty()
    } else {
        ascii_row(g, y, n - 1).push(if g.alive_at(n - 1, y) { '#' } else { '.' })
    }
}

impl CaGrid {
    /// A field-by-field copy of the grid.
    pub fn duplicate(&self) -> (g: CaGrid)
        ensures
            g.width == self.width,
            g.height == self.height,
            g.wrap == self.wrap,
            g.cells@ == self.cells@,
    {
        let mut cells: Vec<CellState> = Vec::with_capacity(self.cells.len());
        let mut i: usize = 0;
        while i < self.cells.len()
            invariant
                i <= self.cells@.len(),
                cells@ == self.cells@.subrange(0, i as int),
            decreases self.cells@.len() - i,
        {
            cells.push(self.cells[i]);
            i += 1;
        }
        CaGrid { width: self.width, height: self.height, cells, wrap: self.wrap }
    }

    /// Count the number of alive cells.
    pub fn alive_count(&self) -> (n: usize)
        ensures
            n == count_alive(self.cells@),
    {
        let mut n: usize = 0;
        let mut i: usize = 0;
        while i < self.cells.len()
            invariant
                i <= self.cells@.len(),
                n == count_alive(self.cells@.subrange(0, i as int)),
                n <= i,
            decreases self.cells@.len() - i,
        {
            proof {
                assert(self.cells@.subrange(0, i + 1).drop_last() =~= self.cells@.subrange(0, i as int));
            }
            if self.cells[i].is_alive() {
                n += 1;
            }
            i += 1;
        }
        proof {
            assert(self.cells@.subrange(0, self.cells@.len() as int) =~= self.cells@);
        }
        n
    }

    /// Run the automaton for `generations` steps, collecting all grid states
    /// (the starting grid first).
    pub fn run(&self, rules: &RuleSet, generations: usize) -> (history: Vec<CaGrid>)
        requires
            self.wf(),
            self.width < isize::MAX,
            self.height < isize::MAX,
            generations < usize::MAX,
        ensures
            history@.len() == generations + 1,
            history@[0].cells@ == self.cells@,
            forall|k: int|
                0 <= k < history@.len() ==> {
                    &&& (#[trigger] history@[k]).wf()
                    &&& history@[k].width == self.width
                    &&& history@[k].height == self.height
                    &&& history@[k].wrap == self.wrap
                },
            forall|k: int|
                0 <= k < generations ==> (#[trigger] history@[k + 1]).cells@ == history@[k]@.next_cells(
                    rules.birth@,
                    rules.survival@,
                ),
    {
        let mut history: Vec<CaGrid> = Vec::with_capacity(generations + 1);
        history.push(self.duplicate());
        let mut current = self.duplicate();
        let mut g: usize = 0;
        while g < generations
            invariant
                g <= generations,
                history@.len() == g + 1,
                history@[0].cells@ == self.cells@,
                current.cells@ == history@[g as int].cells@,
                current.width == self.width,
                current.height == self.height,
                current.wrap == self.wrap,
                current.wf(),
                self.width < isize::MAX,
                self.height < isize::MAX,
                forall|k: int|
                    0 <= k < history@.len() ==> {
                        &&& (#[trigger] history@[k]).wf()
                        &&& history@[k].width == self.width
                        &&& history@[k].height == self.height
                        &&& history@[k].wrap == self.wrap
                    },
                forall|k: int|
                    0 <= k < g ==> (#[trigger] history@[k + 1]).cells@ == history@[k]@.next_cells(
                        rules.birth@,
                        rules.survival@,
                    ),
            decreases generations - g,
        {
            let next = current.step(rules);
            proof {
                assert(current@ == history@[g as int]@);
            }
            history.push(next.duplicate());
            current = next;
            g += 1;
        }
        history
    }

    /// Render as a flat RGB `u8` vector (row-major, 3 bytes per pixel).
    pub fn to_rgb(&self, alive_color: (u8, u8, u8), dead_color: (u8, u8, u8)) -> (buf: Vec<u8>)
        requires
            self.cells@.len() * 3 <= usize::MAX,
        ensures
            buf@ == rgb_bytes(self.cells@, alive_color, dead_color),
            buf@.len() == 3 * self.cells@.len(),
    {
        let mut buf: Vec<u8> = Vec::new();
        let mut i: usize = 0;
        while i < self.cells.len()
            invariant
                i <= self.cells@.len(),
                buf@ == rgb_bytes(self.cells@.subrange(0, i as int), alive_color, dead_color),
                buf@.len() == 3 * i,
            decreases self.cells@.len() - i,
        {
            proof {
                assert(self.cells@.subrange(0, i + 1).drop_last() =~= self.cells@.subrange(0, i as int));
            }
            let (r, g, b) = if self.cells[i].is_alive() {
                alive_color
            } else {
                dead_color
            };
            buf.push(r);
            buf.push(g);
            buf.push(b);
            i += 1;
            proof {
                assert(buf@ =~= rgb_bytes(self.cells@.subrange(0, i as int), alive_color, dead_color));
            }
        }
        proof {
            assert(self.cells@.subrange(0, self.cells@.len() as int) =~= self.cells@);
        }
        buf
    }

    /// Render as ASCII art: `#` for alive, `.` for dead, `\n` between rows.
    pub fn to_ascii(&self) -> (s: String)
        requires
            self.wf(),
        ensures
            s@ == ascii_rows(self@, self.height as int),
    {
        let mut s = String::new();
        let mut y: usize = 0;
        while y < self.height
            invariant
                self.wf(),
                y <= self.height,
                s@ == ascii_rows(self@, y as int),
            decreases self.height - y,
        {
            let ghost before = s@;
            if y > 0 {
                crate::text::push_char(&mut s, '\n');
            }
            let ghost with_sep = s@;
            let mut x: usize = 0;
            while x < self.width
                invariant
                    self.wf(),
                    y < self.height,
                    x <= self.width,
                    s@ == with_sep + ascii_row(self@, y as int, x as int),
                decreases self.width - x,
            {
                let c = self.get(x, y);
                proof {
                    vstd::arithmetic::div_mod::lemma_small_mod(x as nat, self.width as nat);
                    vstd::arithmetic::div_mod::lemma_small_mod(y as nat, self.height as nat);
                }
                crate::text::push_char(&mut s, if c.is_alive() { '#' } else { '.' });
                proof {
                    assert(s@ =~= with_sep + ascii_row(self@, y as int, x + 1));
                }
                x += 1;
            }
            proof {
                let sep = if y + 1 > 1 { seq!['\n'] } else { Seq::<char>::empty() };
                assert(with_sep =~= before + sep);
                assert(s@ =~= ascii_rows(self@, y + 1));
            }
            y += 1;
        }
        s
    }
}

// ── GliderLibrary ─────────────────────────────────────────────────────────────

/// Common patterns expressed as lists of alive-cell relative offsets `(dx, dy)`.
pub struct GliderLibrary;

impl GliderLibrary {
    /// Classic 5-cell glider (moves diagonally in Conway).
    ///
    /// ```text
    ///  .#.
    ///  ..#
    ///  ###
    /// ```
    pub fn glider() -> (p: Vec<(usize, usize)>)
        ensures
            p@ == seq![(1usize, 0usize), (2, 1), (0, 2), (1, 2), (2, 2)],
    {
        vec![(1, 0), (2, 1), (0, 2), (1, 2), (2, 2)]
    }

    /// Horizontal 3-cell blinker (period-2 oscillator).
    pub fn blinker() -> (p: Vec<(usize, usize)>)
        ensures
            p@ == seq![(0usize, 1usize), (1, 1), (2, 1)],
    {
        vec![(0, 1), (1, 1), (2, 1)]
    }

    /// 2×2 stable block.
    pub fn block() -> (p: Vec<(usize, usize)>)
        ensures
            p@ == seq![(0usize, 0usize), (1, 0), (0, 1), (1, 1)],
    {
        vec![(0, 0), (1, 0), (0, 1), (1, 1)]
    }

    /// Place a pattern on the grid at the given top-left position `(x, y)`;
    /// pattern cells that fall outside the grid are skipped.
    pub fn place_pattern(grid: &mut CaGrid, pattern: &[(usize, usize)], x: usize, y: usize)
        requires
            old(grid).wf(),
            forall|k: int|
                0 <= k < pattern@.len() ==> x + (#[trigger] pattern@[k]).0 <= usize::MAX && y
                    + pattern@[k].1 <= usize::MAX,
        ensures
            final(grid).wf(),
            final(grid).width == old(grid).width,
            final(grid).height == old(grid).height,
            final(grid).wrap == old(grid).wrap,
            forall|px: int, py: int|
                0 <= px < old(grid).width && 0 <= py < old(grid).height ==> {
                    let hit = exists|k: int|
                        0 <= k < pattern@.len() && x + pattern@[k].0 == px && y + pattern@[k].1 == py;
                    #[trigger] final(grid).cells@[py * old(grid).width + px] == if hit {
                        CellState::Alive
                    } else {
                        old(grid).cells@[py * old(grid).width + px]
                    }
                },
    {
        let ghost w = grid.width as int;
        let ghost h = grid.height as int;
        let ghost orig = grid.cells@;
        let mut k: usize = 0;
        while k < pattern.len()
            invariant
                k <= pattern@.len(),
                grid.wf(),
                grid.width == w,
                grid.height == h,
                grid.wrap == old(grid).wrap,
                orig == old(grid).cells@,
                w == old(grid).width,
                h == old(grid).height,
                forall|j: int|
                    0 <= j < pattern@.len() ==> x + (#[trigger] pattern@[j]).0 <= usize::MAX && y
                        + pattern@[j].1 <= usize::MAX,
                forall|px: int, py: int|
                    0 <= px < w && 0 <= py < h ==> {
                        let hit = exists|j: int|
                            0 <= j < k && x + pattern@[j].0 == px && y + pattern@[j].1 == py;
                        #[trigger] grid.cells@[py * w + px] == if hit {
                            CellState::Alive
                        } else {
                            orig[py * w + px]
                        }
                    },
            decreases pattern@.len() - k,
        {
            let (dx, dy) = pattern[k];
            let px = x + dx;
            let py = y + dy;
            let ghost before = grid.cells@;
            if px < grid.width && py < grid.height {
                grid.set(px, py, CellState::Alive);
            }
            proof {
                assert forall|qx: int, qy: int| 0 <= qx < w && 0 <= qy < h implies {
                    let hit = exists|j: int|
                        0 <= j < k + 1 && x + pattern@[j].0 == qx && y + pattern@[j].1 == qy;
                    #[trigger] grid.cells@[qy * w + qx] == if hit {
                        CellState::Alive
                    } else {
                        orig[qy * w + qx]
                    }
                } by {
                    lemma_row_major_index(qx, qy, w, h);
                    if qx == px && qy == py {
                        assert(0 <= k < k + 1 && x + pattern@[k as int].0 == qx && y
                            + pattern@[k as int].1 == qy);
                    } else {
                        if (px as int) < w && (py as int) < h {
                            lemma_row_major_index(px as int, py as int, w, h);
                            lemma_row_major_split(px as int, py as int, w);
                            lemma_row_major_split(qx, qy, w);
                        }
                        assert(grid.cells@[qy * w + qx] == before[qy * w + qx]);
                    }
                }
            }
            k += 1;
        }
    }
}

/// A grid without living cells stays empty under any rule set that does not
/// bring cells to life with zero living neighbours.
pub proof fn lemma_empty_grid_stays_empty(g: CaGrid, birth: Seq<u8>, survival: Seq<u8>)
    requires
        g.wf(),
        forall|i: int| 0 <= i < g.cells@.len() ==> g.cells@[i] == CellState::Dead,
        !birth.contains(0u8),
    ensures
        forall|i: int|
            0 <= i < g.cells@.len() ==> #[trigger] g@.next_cells(birth, survival)[i]
                == CellState::Dead,
{
    assert forall|i: int| 0 <= i < g.cells@.len() implies #[trigger] g@.next_cells(
        birth,
        survival,
    )[i] == CellState::Dead by {
        let w = g.width as int;
        let x = i % w;
        let y = i / w;
        lemma_nothing_alive(g);
        lemma_count_first_zero(g, x, y, 8);
    }
}

/// Nothing is alive anywhere on an all-dead grid.
proof fn lemma_nothing_alive(g: CaGrid)
    requires
        g.wf(),
        forall|i: int| 0 <= i < g.cells@.len() ==> g.cells@[i] == CellState::Dead,
    ensures
        forall|x: int, y: int| !#[trigger] g@.alive_at(x, y),
{
    assert forall|x: int, y: int| !#[trigger] g@.alive_at(x, y) by {
        if g.width > 0 && g.height > 0 {
            let w = g.width as int;
            let h = g.height as int;
            if g.wrap {
                lemma_row_major_index(x % w, y % h, w, h);
            } else if 0 <= x < w && 0 <= y < h {
                lemma_row_major_index(x, y, w, h);
            }
        }
    }
}

proof fn lemma_count_first_zero(g: CaGrid, x: int, y: int, k: int)
    requires
        forall|a: int, b: int| !#[trigger] g@.alive_at(a, b),
    ensures
        g@.count_first(x, y, k) == 0,
    decreases k,
{
    if k > 0 {
        lemma_count_first_zero(g, x, y, k - 1);
        let o = moore_offsets()[k - 1];
        assert(!g@.alive_at(x + o.0, y + o.1));
    }
}

/// Row-major positions inside a `width × height` grid index inside the
/// flat storage.
pub proof fn lemma_row_major_index(x: int, y: int, width: int, height: int)
    requires
        0 <= x < width,
        0 <= y < height,
    ensures
        0 <= y * width + x < width * height,
        y * width + x + 1 <= width * height,
{
    assert(y * width + x < (y + 1) * width) by (nonlinear_arith)
        requires 0 <= x < width;
    assert((y + 1) * width <= height * width) by (nonlinear_arith)
        requires y + 1 <= height, width >= 0;
    assert(0 <= y * width) by (nonlinear_arith)
        requires y >= 0, width >= 0;
}

/// A flat index splits back into its column and row.
pub proof fn lemma_row_major_split(x: int, y: int, width: int)
    requires
        0 <= x < width,
        0 <= y,
    ensures
        (y * width + x) % width == x,
        (y * width + x) / width == y,
{
    vstd::arithmetic::div_mod::lemma_fundamental_div_mod_converse(y * width + x, width, y, x);
}

} // verus!

//! The grid state and its move engine.
//!
//! A `Grid` holds a square matrix of tiles (zero means empty, any other
//! value is a power of two), and the score accumulated by merges. All four
//! directional moves reduce to the one slide-left pass of [`crate::rows`],
//! bracketed by quarter-turn rotations; a move reports whether it changed
//! the board. The legality checker replays each move on a copy, and the
//! spawn policy places one tile into an empty cell after an accepted move.

use vstd::arithmetic::power2::lemma2_to64;
use vstd::arithmetic::power2::lemma_pow2_adds;
use vstd::arithmetic::power2::lemma_pow2_strictly_increases;
use vstd::arithmetic::power2::lemma_pow2_subtracts;
use vstd::arithmetic::power2::pow2;
use vstd::prelude::*;

use crate::rng::Rng;
use crate::rows::compact_spec;
use crate::rows::grid_gain;
use crate::rows::grid_in_range;
use crate::rows::lemma_row_sum_le;
use crate::rows::merge_spec;
use crate::rows::row_in_range;
use crate::rows::slide_row;
use crate::rows::slide_row_spec;

verus! {

/// How many tiles a fresh grid starts with.
pub const START_TILES: usize = 2;

/// The smallest tile value, spawned by default and placed at the start.
pub const MIN_TILE: u32 = 2;

/// Divisor applied to the largest tile by the growth-scaled spawn policy:
/// two to the growth shift of five.
pub const GROWTH_DIVISOR: u32 = 32;

/// Bound on how often the spawn policy samples random cells before it
/// falls back to scanning for the first empty cell.
pub const SPAWN_DRAWS: usize = 64;

/// The dimension bound that keeps the cell count and the score arithmetic
/// inside the machine words.
pub const DIM_LIMIT: usize = 0xFFFF;

/// The tile matrix a vector of rows holds, as a sequence of sequences.
pub open spec fn view_of(v: Vec<Vec<u32>>) -> Seq<Seq<u32>> {
    v@.map_values(|r: Vec<u32>| r@)
}

/// A square matrix: every row is as long as the matrix is tall.
pub open spec fn is_square(g: Seq<Seq<u32>>) -> bool {
    forall|i: int| 0 <= i < g.len() ==> g[i].len() == g.len()
}

/// The matrix turned by a quarter: row `i` of the result reads column
/// `len - 1 - i` of the argument from top to bottom, so that sliding the
/// rotated rows to the left slides the original columns upward.
pub open spec fn rotate_spec(g: Seq<Seq<u32>>) -> Seq<Seq<u32>> {
    Seq::new(g.len(), |i: int| Seq::new(g.len(), |j: int| g[j][g.len() - 1 - i]))
}

/// Every row slid to the left.
pub open spec fn slide_grid_spec(g: Seq<Seq<u32>>, dim: nat) -> Seq<Seq<u32>> {
    Seq::new(g.len(), |i: int| slide_row_spec(g[i], dim))
}

/// The move toward the left edge.
pub open spec fn left_spec(g: Seq<Seq<u32>>) -> Seq<Seq<u32>> {
    slide_grid_spec(g, g.len())
}

/// The move toward the top edge: one quarter turn, slide, three turns back.
pub open spec fn up_spec(g: Seq<Seq<u32>>) -> Seq<Seq<u32>> {
    rotate_spec(rotate_spec(rotate_spec(slide_grid_spec(rotate_spec(g), g.len()))))
}

/// The move toward the right edge: two quarter turns, slide, two back.
pub open spec fn right_spec(g: Seq<Seq<u32>>) -> Seq<Seq<u32>> {
    rotate_spec(rotate_spec(slide_grid_spec(rotate_spec(rotate_spec(g)), g.len())))
}

/// The move toward the bottom edge: three quarter turns, slide, one back.
pub open spec fn down_spec(g: Seq<Seq<u32>>) -> Seq<Seq<u32>> {
    rotate_spec(slide_grid_spec(rotate_spec(rotate_spec(rotate_spec(g))), g.len()))
}

/// A value is a proper tile: a power of two no smaller than the minimum.
pub open spec fn is_tile(v: u32) -> bool {
    v >= 2 && exists|k: nat| v as nat == pow2(k)
}

/// Every non-zero cell of the matrix is a proper tile.
pub open spec fn grid_tiles_ok(g: Seq<Seq<u32>>) -> bool {
    forall|i: int, j: int|
        0 <= i < g.len() && 0 <= j < g[i].len() && g[i][j] != 0 ==> is_tile(g[i][j])
}

/// Some cell of the matrix is empty.
pub open spec fn has_empty_cell(g: Seq<Seq<u32>>) -> bool {
    exists|i: int, j: int| 0 <= i < g.len() && 0 <= j < g[i].len() && g[i][j] == 0
}

/// The largest tile of a row, zero on an empty row.
pub open spec fn row_max_spec(r: Seq<u32>) -> u32
    decreases r.len(),
{
    if r.len() == 0 {
        0u32
    } else if r[0] >= row_max_spec(r.skip(1)) {
        r[0]
    } else {
        row_max_spec(r.skip(1))
    }
}

/// The largest tile of the matrix, zero when all cells are empty.
pub open spec fn grid_max_spec(g: Seq<Seq<u32>>) -> u32
    decreases g.len(),
{
    if g.len() == 0 {
        0u32
    } else if row_max_spec(g[0]) >= grid_max_spec(g.skip(1)) {
        row_max_spec(g[0])
    } else {
        grid_max_spec(g.skip(1))
    }
}

/// How a spawned tile's value is chosen.
#[derive(Clone, Copy, Debug, PartialEq, Eq, Structural)]
pub enum SpawnPolicy {
    /// Always the minimum tile value.
    Constant,
    /// The largest tile divided by the growth divisor, floored to the
    /// minimum tile value whenever that quotient would be one or less.
    Scaled,
}

/// The value a spawn places, given the largest tile on the board.
pub open spec fn spawn_value_spec(policy: SpawnPolicy, largest: u32) -> u32 {
    match policy {
        SpawnPolicy::Constant => MIN_TILE,
        SpawnPolicy::Scaled => if largest / GROWTH_DIVISOR > 1 {
            largest / GROWTH_DIVISOR
        } else {
            MIN_TILE
        },
    }
}

/// One tile spawned: cell `(i, j)` of `pre` was empty and now holds `v`;
/// nothing else moved.
pub open spec fn spawn_result(pre: Seq<Seq<u32>>, post: Seq<Seq<u32>>, v: u32) -> bool {
    exists|i: int, j: int|
        0 <= i < pre.len() && 0 <= j < pre[i].len() && pre[i][j] == 0 && post == pre.update(
            i,
            pre[i].update(j, v),
        )
}

/// A direction a move can take.
#[derive(Clone, Copy, Debug, PartialEq, Eq, Structural)]
pub enum Direction {
    Up,
    Down,
    Left,
    Right,
}

/// What a move in the given direction turns the matrix into.
pub open spec fn move_spec(d: Direction, g: Seq<Seq<u32>>) -> Seq<Seq<u32>> {
    match d {
        Direction::Up => up_spec(g),
        Direction::Down => down_spec(g),
        Direction::Left => left_spec(g),
        Direction::Right => right_spec(g),
    }
}

/// The score a move in the given direction earns.
pub open spec fn move_gain(d: Direction, g: Seq<Seq<u32>>) -> int {
    match d {
        Direction::Up => grid_gain(rotate_spec(g)),
        Direction::Down => grid_gain(rotate_spec(rotate_spec(rotate_spec(g)))),
        Direction::Left => grid_gain(g),
        Direction::Right => grid_gain(rotate_spec(rotate_spec(g))),
    }
}

/// The game state: the tile matrix and the score.
pub struct Grid {
    /// Edge length of the square matrix, fixed at construction.
    pub dim: usize,
    /// The tiles, row-major; zero is an empty cell.
    pub grid: Vec<Vec<u32>>,
    /// Sum of every tile a merge has created so far.
    pub score: u64,
}

impl Grid {
    /// The tile matrix as a sequence of rows.
    pub open spec fn cells(&self) -> Seq<Seq<u32>> {
        view_of(self.grid)
    }

    /// The matrix is square with the stated dimension, inside the machine
    /// bound.
    pub open spec fn wf(&self) -> bool {
        &&& 1 <= self.dim <= DIM_LIMIT
        &&& self.cells().len() == self.dim
        &&& forall|i: int| 0 <= i < self.dim ==> self.cells()[i].len() == self.dim
    }

    /// Room is left before the score accumulator could overflow on one
    /// more move.
    pub open spec fn score_headroom(&self) -> bool {
        self.score + self.dim * self.dim * 0x8000_0000 <= u64::MAX
    }

    /// Turns the matrix by a quarter in place.
    pub fn rotate(&mut self)
        requires
            old(self).wf(),
        ensures
            final(self).wf(),
            final(self).dim == old(self).dim,
            final(self).score == old(self).score,
            final(self).cells() == rotate_spec(old(self).cells()),
            grid_tiles_ok(old(self).cells()) ==> grid_tiles_ok(final(self).cells()),
    {
        let ghost g0 = self.cells();
        let n = self.dim;
        let mut turned: Vec<Vec<u32>> = Vec::new();
        let mut i: usize = 0;
        while i < n
            invariant
                i <= n,
                self.wf(),
                self.dim == n,
                self.cells() == g0,
                turned@.len() == i,
                forall|r: int|
                    0 <= r < i ==> turned@[r]@ =~= Seq::new(
                        n as nat,
                        |j: int| g0[j][n - 1 - r],
                    ),
            decreases n - i,
        {
            let mut row: Vec<u32> = Vec::new();
            let mut j: usize = 0;
            while j < n
                invariant
                    j <= n,
                    i < n,
                    self.wf(),
                    self.dim == n,
                    self.cells() == g0,
                    row@.len() == j,
                    forall|k: int| 0 <= k < j ==> row@[k] == g0[k][n - 1 - i],
                decreases n - j,
            {
                proof {
                    assert(self.grid@.len() == self.cells().len());
                    assert(self.grid@[j as int]@.len() == self.cells()[j as int].len());
                }
                row.push(self.grid[j][n - 1 - i]);
                j = j + 1;
            }
            turned.push(row);
            i = i + 1;
        }
        self.grid = turned;
        proof {
            assert(self.cells() =~~= rotate_spec(g0));
            if grid_tiles_ok(g0) {
                let t = self.cells();
                assert forall|a: int, b: int|
                    0 <= a < t.len() && 0 <= b < t[a].len() && t[a][b] != 0 implies is_tile(
                    t[a][b],
                ) by {
                    assert(t[a][b] == g0[b][n - 1 - a]);
                }
            }
        }
    }

    /// Slides every row to the left: compact, merge, pad; the score grows
    /// by the value of every tile the merges created.
    pub fn slide(&mut self)
        requires
            old(self).wf(),
            grid_in_range(old(self).cells()),
            old(self).score_headroom(),
        ensures
            final(self).wf(),
            final(self).dim == old(self).dim,
            final(self).cells() == slide_grid_spec(old(self).cells(), old(self).dim as nat),
            final(self).score == old(self).score + grid_gain(old(self).cells()),
            grid_tiles_ok(old(self).cells()) ==> grid_tiles_ok(final(self).cells()),
    {
        let ghost g0 = self.cells();
        let ghost score0 = self.score;
        let n = self.dim;
        let mut i: usize = 0;
        proof {
            assert(g0.skip(0) =~= g0);
            assert(self.cells() =~= Seq::new(
                n as nat,
                |r: int| if r < 0 { slide_row_spec(g0[r], n as nat) } else { g0[r] },
            ));
        }
        while i < n
            invariant
                i <= n,
                self.dim == n,
                1 <= n <= DIM_LIMIT,
                self.grid@.len() == n,
                g0.len() == n,
                forall|r: int| 0 <= r < n ==> g0[r].len() == n,
                grid_in_range(g0),
                self.cells() == Seq::new(
                    n as nat,
                    |r: int| if r < i { slide_row_spec(g0[r], n as nat) } else { g0[r] },
                ),
                score0 + grid_gain(g0) == self.score + grid_gain(g0.skip(i as int)),
                self.score <= score0 + i * (n * 0x8000_0000),
                score0 + n * n * 0x8000_0000 <= u64::MAX,
            decreases n - i,
        {
            let ghost tail = g0.skip(i as int);
            proof {
                assert(tail.skip(1) =~= g0.skip(i as int + 1));
                assert(tail[0] == g0[i as int]);
                lemma_row_sum_le(g0[i as int]);
                assert((i + 1) * (n * 0x8000_0000) == i * (n * 0x8000_0000) + n
                    * 0x8000_0000) by (nonlinear_arith);
                assert(i + 1 <= n ==> (i + 1) * (n * 0x8000_0000) <= n * (n
                    * 0x8000_0000)) by (nonlinear_arith);
                assert(n * (n * 0x8000_0000) == n * n * 0x8000_0000) by (nonlinear_arith);
                assert(self.grid@.len() == self.cells().len());
                assert(self.grid@[i as int]@ == self.cells()[i as int]);
                assert(self.cells()[i as int] == g0[i as int]);
            }
            let (fresh, gained) = slide_row(&self.grid[i], n);
            let ghost pre_grid = self.grid@;
            let ghost pre_cells = self.cells();
            self.grid[i] = fresh;
            self.score = self.score + gained;
            proof {
                assert(self.grid@ == pre_grid.update(i as int, fresh));
                assert forall|r: int| 0 <= r < n implies self.cells()[r] == (if r < i + 1 {
                    slide_row_spec(g0[r], n as nat)
                } else {
                    g0[r]
                }) by {
                    assert(self.cells()[r] == self.grid@[r]@);
                    if r == i {
                        assert(self.grid@[r] == fresh);
                        assert(fresh@ == slide_row_spec(g0[r], n as nat));
                    } else {
                        assert(self.grid@[r] == pre_grid[r]);
                        assert(pre_cells[r] == pre_grid[r]@);
                        assert(pre_cells[r] == (if r < i {
                            slide_row_spec(g0[r], n as nat)
                        } else {
                            g0[r]
                        }));
                    }
                }
                assert(self.cells() =~= Seq::new(
                    n as nat,
                    |r: int| if r < i + 1 { slide_row_spec(g0[r], n as nat) } else { g0[r] },
                ));
            }
            i = i + 1;
        }
        proof {
            assert(g0.skip(n as int) =~= Seq::<Seq<u32>>::empty());
            assert(self.cells() =~~= slide_grid_spec(g0, n as nat));
            assert forall|r: int| 0 <= r < n implies self.cells()[r].len() == n by {
                crate::rows::lemma_slide_row_len(g0[r], n as nat);
            }
            if grid_tiles_ok(g0) {
                let t = self.cells();
                assert forall|a: int, b: int|
                    0 <= a < t.len() && 0 <= b < t[a].len() && t[a][b] != 0 implies is_tile(
                    t[a][b],
                ) by {
                    assert(forall|k: int|
                        0 <= k < g0[a].len() && g0[a][k] != 0 ==> is_tile(#[trigger] g0[a][k]));
                    lemma_slide_row_tiles(g0[a], n as nat);
                    assert(t[a] == slide_row_spec(g0[a], n as nat));
                }
            }
        }
    }

    /// Slides toward the left edge; reports whether the board changed.
    pub fn left(&mut self) -> (changed: bool)
        requires
            old(self).wf(),
            grid_in_range(old(self).cells()),
            old(self).score_headroom(),
        ensures
            final(self).wf(),
            final(self).dim == old(self).dim,
            final(self).cells() == left_spec(old(self).cells()),
            final(self).score == old(self).score + move_gain(Direction::Left, old(self).cells()),
            changed == (final(self).cells() != old(self).cells()),
            grid_tiles_ok(old(self).cells()) ==> grid_tiles_ok(final(self).cells()),
    {
        let snapshot = copy_grid(&self.grid);
        self.slide();
        !grids_equal(&snapshot, &self.grid)
    }

    /// Slides toward the right edge; reports whether the board changed.
    pub fn right(&mut self) -> (changed: bool)
        requires
            old(self).wf(),
            grid_in_range(old(self).cells()),
            old(self).score_headroom(),
        ensures
            final(self).wf(),
            final(self).dim == old(self).dim,
            final(self).cells() == right_spec(old(self).cells()),
            final(self).score == old(self).score + move_gain(Direction::Right, old(self).cells()),
            changed == (final(self).cells() != old(self).cells()),
            grid_tiles_ok(old(self).cells()) ==> grid_tiles_ok(final(self).cells()),
    {
        let snapshot = copy_grid(&self.grid);
        self.rotate();
        self.rotate();
        proof {
            lemma_rotate_in_range(old(self).cells());
            lemma_rotate_in_range(rotate_spec(old(self).cells()));
        }
        self.slide();
        self.rotate();
        self.rotate();
        !grids_equal(&snapshot, &self.grid)
    }

    /// Slides toward the top edge; reports whether the board changed.
    pub fn up(&mut self) -> (changed: bool)
        requires
            old(self).wf(),
            grid_in_range(old(self).cells()),
            old(self).score_headroom(),
        ensures
            final(self).wf(),
            final(self).dim == old(self).dim,
            final(self).cells() == up_spec(old(self).cells()),
            final(self).score == old(self).score + move_gain(Direction::Up, old(self).cells()),
            changed == (final(self).cells() != old(self).cells()),
            grid_tiles_ok(old(self).cells()) ==> grid_tiles_ok(final(self).cells()),
    {
        let snapshot = copy_grid(&self.grid);
        self.rotate();
        proof {
            lemma_rotate_in_range(old(self).cells());
        }
        self.slide();
        self.rotate();
        self.rotate();
        self.rotate();
        !grids_equal(&snapshot, &self.grid)
    }

    /// Slides toward the bottom edge; reports whether the board changed.
    pub fn down(&mut self) -> (changed: bool)
        requires
            old(self).wf(),
            grid_in_range(old(self).cells()),
            old(self).score_headroom(),
        ensures
            final(self).wf(),
            final(self).dim == old(self).dim,
            final(self).cells() == down_spec(old(self).cells()),
            final(self).score == old(self).score + move_gain(Direction::Down, old(self).cells()),
            changed == (final(self).cells() != old(self).cells()),
            grid_tiles_ok(old(self).cells()) ==> grid_tiles_ok(final(self).cells()),
    {
        let snapshot = copy_grid(&self.grid);
        self.rotate();
        self.rotate();
        self.rotate();
        proof {
            lemma_rotate_in_range(old(self).cells());
            lemma_rotate_in_range(rotate_spec(old(self).cells()));
            lemma_rotate_in_range(rotate_spec(rotate_spec(old(self).cells())));
        }
        self.slide();
        self.rotate();
        !grids_equal(&snapshot, &self.grid)
    }

    /// Applies the move in the given direction; reports whether the board
    /// changed.
    pub fn apply_move(&mut self, d: Direction) -> (changed: bool)
        requires
            old(self).wf(),
            grid_in_range(old(self).cells()),
            old(self).score_headroom(),
        ensures
            final(self).wf(),
            final(self).dim == old(self).dim,
            final(self).cells() == move_spec(d, old(self).cells()),
            final(self).score == old(self).score + move_gain(d, old(self).cells()),
            changed == (final(self).cells() != old(self).cells()),
            grid_tiles_ok(old(self).cells()) ==> grid_tiles_ok(final(self).cells()),
    {
        match d {
            Direction::Up => self.up(),
            Direction::Down => self.down(),
            Direction::Left => self.left(),
            Direction::Right => self.right(),
        }
    }

    /// Which of the four moves would change the board, in the order left,
    /// right, up, down. The live state is never touched: each move runs on
    /// a copy.
    pub fn legal_moves(&self) -> (r: (bool, bool, bool, bool))
        requires
            self.wf(),
            grid_in_range(self.cells()),
        ensures
            r.0 == (left_spec(self.cells()) != self.cells()),
            r.1 == (right_spec(self.cells()) != self.cells()),
            r.2 == (up_spec(self.cells()) != self.cells()),
            r.3 == (down_spec(self.cells()) != self.cells()),
    {
        proof {
            lemma_dim_headroom(self.dim);
        }
        let mut probe = Grid { dim: self.dim, grid: copy_grid(&self.grid), score: 0 };
        let l = probe.left();
        let mut probe = Grid { dim: self.dim, grid: copy_grid(&self.grid), score: 0 };
        let r = probe.right();
        let mut probe = Grid { dim: self.dim, grid: copy_grid(&self.grid), score: 0 };
        let u = probe.up();
        let mut probe = Grid { dim: self.dim, grid: copy_grid(&self.grid), score: 0 };
        let d = probe.down();
        (l, r, u, d)
    }

    /// The terminal test: no direction would change the board.
    pub fn game_over(&self) -> (over: bool)
        requires
            self.wf(),
            grid_in_range(self.cells()),
        ensures
            over == (left_spec(self.cells()) == self.cells() && right_spec(self.cells())
                == self.cells() && up_spec(self.cells()) == self.cells() && down_spec(
                self.cells(),
            ) == self.cells()),
    {
        let (l, r, u, d) = self.legal_moves();
        !(l || r || u || d)
    }

    /// Writes one cell of the matrix.
    fn set_cell(&mut self, x: usize, y: usize, v: u32)
        requires
            old(self).wf(),
            x < old(self).dim,
            y < old(self).dim,
        ensures
            final(self).wf(),
            final(self).dim == old(self).dim,
            final(self).score == old(self).score,
            final(self).cells() == old(self).cells().update(
                x as int,
                old(self).cells()[x as int].update(y as int, v),
            ),
    {
        let ghost pre_grid = self.grid@;
        let ghost pre_cells = self.cells();
        proof {
            assert(self.grid@.len() == self.cells().len());
            assert(self.grid@[x as int]@ == self.cells()[x as int]);
        }
        let mut row = copy_row(&self.grid[x]);
        row[y] = v;
        let ghost fresh = row@;
        self.grid[x] = row;
        proof {
            assert(self.grid@ == pre_grid.update(x as int, self.grid@[x as int]));
            assert(fresh == pre_cells[x as int].update(y as int, v));
            assert forall|r: int| 0 <= r < pre_cells.len() implies self.cells()[r] == (if r
                == x {
                fresh
            } else {
                pre_cells[r]
            }) by {
                assert(self.cells()[r] == self.grid@[r]@);
                if r != x {
                    assert(self.grid@[r] == pre_grid[r]);
                }
            }
            assert(self.cells() =~= pre_cells.update(
                x as int,
                pre_cells[x as int].update(y as int, v),
            ));
        }
    }

    /// Spawns one tile into an empty cell: the cell is drawn from the
    /// pseudo-random source a bounded number of times, then, failing that,
    /// the first empty cell is taken; its value follows the policy. Reports
    /// whether a tile was placed, which fails exactly on a full board. The
    /// score never moves.
    pub fn spawn_tile(&mut self, rng: &mut Rng, policy: SpawnPolicy) -> (placed: bool)
        requires
            old(self).wf(),
        ensures
            final(self).wf(),
            final(self).dim == old(self).dim,
            final(self).score == old(self).score,
            placed == has_empty_cell(old(self).cells()),
            placed ==> spawn_result(
                old(self).cells(),
                final(self).cells(),
                spawn_value_spec(policy, grid_max_spec(old(self).cells())),
            ),
            !placed ==> final(self).cells() == old(self).cells(),
            grid_in_range(old(self).cells()) ==> grid_in_range(final(self).cells()),
            grid_tiles_ok(old(self).cells()) && grid_in_range(old(self).cells())
                ==> grid_tiles_ok(final(self).cells()),
    {
        let ghost g0 = self.cells();
        let ghost score0 = self.score;
        let n = self.dim;
        let largest = grid_max(&self.grid);
        let v = spawn_value(policy, largest);
        proof {
            lemma_spawn_value_nonzero(policy, largest);
            if grid_in_range(g0) {
                lemma_grid_max_in_range(g0);
            }
            if grid_tiles_ok(g0) && grid_in_range(g0) {
                lemma_grid_max_is_cell(g0);
                lemma_spawn_value_tile(policy, largest);
            }
        }
        let mut tries: usize = 0;
        while tries < SPAWN_DRAWS
            invariant
                self.wf(),
                self.dim == n,
                n == old(self).dim,
                g0 == old(self).cells(),
                score0 == old(self).score,
                self.cells() == g0,
                self.score == score0,
                v == spawn_value_spec(policy, grid_max_spec(g0)),
                v != 0,
                grid_in_range(g0) ==> v < 0x8000_0000,
                grid_tiles_ok(g0) && grid_in_range(g0) ==> is_tile(v),
            decreases SPAWN_DRAWS - tries,
        {
            let x = rng.next_draw() % n;
            let y = rng.next_draw() % n;
            proof {
                assert(self.grid@.len() == self.cells().len());
                assert(self.grid@[x as int]@.len() == self.cells()[x as int].len());
            }
            if self.grid[x][y] == 0 {
                proof {
                    assert(self.grid@[x as int]@ == self.cells()[x as int]);
                }
                self.set_cell(x, y, v);
                proof {
                    lemma_spawn_update_ok(g0, x as int, y as int, v, self.cells());
                }
                return true;
            }
            tries = tries + 1;
        }
        let mut i: usize = 0;
        while i < n
            invariant
                self.wf(),
                self.dim == n,
                n == old(self).dim,
                g0 == old(self).cells(),
                score0 == old(self).score,
                self.cells() == g0,
                self.score == score0,
                v == spawn_value_spec(policy, grid_max_spec(g0)),
                v != 0,
                grid_in_range(g0) ==> v < 0x8000_0000,
                grid_tiles_ok(g0) && grid_in_range(g0) ==> is_tile(v),
                i <= n,
                forall|a: int, b: int| 0 <= a < i && 0 <= b < n ==> g0[a][b] != 0,
            decreases n - i,
        {
            let mut j: usize = 0;
            while j < n
                invariant
                    self.wf(),
                    self.dim == n,
                    n == old(self).dim,
                    g0 == old(self).cells(),
                    score0 == old(self).score,
                    self.cells() == g0,
                    self.score == score0,
                    v == spawn_value_spec(policy, grid_max_spec(g0)),
                    v != 0,
                    grid_in_range(g0) ==> v < 0x8000_0000,
                    grid_tiles_ok(g0) && grid_in_range(g0) ==> is_tile(v),
                    i < n,
                    j <= n,
                    forall|a: int, b: int| 0 <= a < i && 0 <= b < n ==> g0[a][b] != 0,
                    forall|b: int| 0 <= b < j ==> g0[i as int][b] != 0,
                decreases n - j,
            {
                proof {
                    assert(self.grid@.len() == self.cells().len());
                    assert(self.grid@[i as int]@.len() == self.cells()[i as int].len());
                }
                if self.grid[i][j] == 0 {
                    proof {
                        assert(self.grid@[i as int]@ == self.cells()[i as int]);
                    }
                    self.set_cell(i, j, v);
                    proof {
                        lemma_spawn_update_ok(g0, i as int, j as int, v, self.cells());
                    }
                    return true;
                }
                j = j + 1;
            }
            i = i + 1;
        }
        proof {
            assert(!has_empty_cell(g0));
        }
        false
    }

    /// A fresh game: a square matrix of the given dimension, zero score,
    /// and the starting number of minimum tiles placed at cells drawn from
    /// the pseudo-random source.
    pub fn new(dim: usize, rng: &mut Rng) -> (g: Grid)
        requires
            2 <= dim <= DIM_LIMIT,
        ensures
            g.wf(),
            g.dim == dim,
            g.score == 0,
            grid_nonzero_count(g.cells()) == START_TILES,
            forall|i: int, j: int|
                0 <= i < dim && 0 <= j < dim ==> (g.cells()[i][j] == 0 || g.cells()[i][j]
                    == MIN_TILE),
            grid_in_range(g.cells()),
            grid_tiles_ok(g.cells()),
    {
        let mut cells: Vec<Vec<u32>> = Vec::new();
        let mut i: usize = 0;
        while i < dim
            invariant
                i <= dim,
                cells@.len() == i,
                forall|r: int| 0 <= r < i ==> cells@[r]@.len() == dim,
                forall|r: int, c: int| 0 <= r < i && 0 <= c < dim ==> cells@[r]@[c] == 0,
            decreases dim - i,
        {
            let mut row: Vec<u32> = Vec::new();
            let mut j: usize = 0;
            while j < dim
                invariant
                    j <= dim,
                    row@.len() == j,
                    forall|c: int| 0 <= c < j ==> row@[c] == 0,
                decreases dim - j,
            {
                row.push(0);
                j = j + 1;
            }
            cells.push(row);
            i = i + 1;
        }
        let mut g = Grid { dim, grid: cells, score: 0 };
        let ghost z = g.cells();
        proof {
            lemma_grid_count_zero(z);
            lemma2_to64();
            assert(grid_in_range(z));
            assert(grid_tiles_ok(z));
            assert(z[0][0] == 0);
            assert(has_empty_cell(z));
        }
        let first = g.spawn_tile(rng, SpawnPolicy::Constant);
        let ghost g1 = g.cells();
        proof {
            let (a, b) = choose|a: int, b: int|
                0 <= a < z.len() && 0 <= b < z[a].len() && z[a][b] == 0 && g1 == z.update(
                    a,
                    z[a].update(b, spawn_value_spec(SpawnPolicy::Constant, grid_max_spec(z))),
                );
            lemma_grid_count_update(z, a, b, MIN_TILE);
            assert(grid_nonzero_count(g1) == 1);
            let other: int = if a == 0 {
                1
            } else {
                0
            };
            assert(g1[other] == z[other]);
            assert(g1[other][0] == 0);
            assert(has_empty_cell(g1));
            assert forall|i: int, j: int| 0 <= i < dim && 0 <= j < dim implies (g1[i][j] == 0
                || g1[i][j] == MIN_TILE) by {
                if i == a {
                    if j != b {
                        assert(g1[i][j] == z[i][j]);
                    }
                } else {
                    assert(g1[i] == z[i]);
                }
            }
        }
        let second = g.spawn_tile(rng, SpawnPolicy::Constant);
        proof {
            let g2 = g.cells();
            let (a, b) = choose|a: int, b: int|
                0 <= a < g1.len() && 0 <= b < g1[a].len() && g1[a][b] == 0 && g2 == g1.update(
                    a,
                    g1[a].update(b, spawn_value_spec(SpawnPolicy::Constant, grid_max_spec(g1))),
                );
            lemma_grid_count_update(g1, a, b, MIN_TILE);
            assert(grid_nonzero_count(g2) == START_TILES);
            assert forall|i: int, j: int| 0 <= i < dim && 0 <= j < dim implies (g2[i][j] == 0
                || g2[i][j] == MIN_TILE) by {
                if i == a {
                    if j != b {
                        assert(g2[i][j] == g1[i][j]);
                    }
                } else {
                    assert(g2[i] == g1[i]);
                }
            }
        }
        g
    }

    /// After a move that reported a change, spawns one growth-scaled tile;
    /// after anything else, leaves the board alone. The score never moves.
    pub fn add(&mut self, valid: bool, rng: &mut Rng)
        requires
            old(self).wf(),
        ensures
            final(self).wf(),
            final(self).dim == old(self).dim,
            final(self).score == old(self).score,
            !valid ==> final(self).cells() == old(self).cells(),
            valid && has_empty_cell(old(self).cells()) ==> spawn_result(
                old(self).cells(),
                final(self).cells(),
                spawn_value_spec(SpawnPolicy::Scaled, grid_max_spec(old(self).cells())),
            ),
            valid && !has_empty_cell(old(self).cells()) ==> final(self).cells() == old(
                self,
            ).cells(),
            grid_in_range(old(self).cells()) ==> grid_in_range(final(self).cells()),
            grid_tiles_ok(old(self).cells()) && grid_in_range(old(self).cells())
                ==> grid_tiles_ok(final(self).cells()),
    {
        if valid {
            let _ = self.spawn_tile(rng, SpawnPolicy::Scaled);
        }
    }
}

/// How many cells of the row hold a tile.
pub open spec fn row_nonzero_count(r: Seq<u32>) -> nat
    decreases r.len(),
{
    if r.len() == 0 {
        0
    } else {
        (if r[0] != 0 {
            1nat
        } else {
            0nat
        }) + row_nonzero_count(r.skip(1))
    }
}

/// How many cells of the matrix hold a tile.
pub open spec fn grid_nonzero_count(g: Seq<Seq<u32>>) -> nat
    decreases g.len(),
{
    if g.len() == 0 {
        0
    } else {
        row_nonzero_count(g[0]) + grid_nonzero_count(g.skip(1))
    }
}

/// Filling one empty cell of a row raises its tile count by one.
pub proof fn lemma_row_count_update(r: Seq<u32>, j: int, v: u32)
    requires
        0 <= j < r.len(),
        r[j] == 0,
        v != 0,
    ensures
        row_nonzero_count(r.update(j, v)) == row_nonzero_count(r) + 1,
    decreases r.len(),
{
    let u = r.update(j, v);
    if j == 0 {
        assert(u.skip(1) =~= r.skip(1));
    } else {
        assert(u.skip(1) =~= r.skip(1).update(j - 1, v));
        lemma_row_count_update(r.skip(1), j - 1, v);
    }
}

/// Filling one empty cell of the matrix raises its tile count by one.
pub proof fn lemma_grid_count_update(g: Seq<Seq<u32>>, i: int, j: int, v: u32)
    requires
        0 <= i < g.len(),
        0 <= j < g[i].len(),
        g[i][j] == 0,
        v != 0,
    ensures
        grid_nonzero_count(g.update(i, g[i].update(j, v))) == grid_nonzero_count(g) + 1,
    decreases g.len(),
{
    let u = g.update(i, g[i].update(j, v));
    if i == 0 {
        assert(u.skip(1) =~= g.skip(1));
        lemma_row_count_update(g[0], j, v);
    } else {
        assert(u.skip(1) =~= g.skip(1).update(i - 1, g.skip(1)[i - 1].update(j, v)));
        lemma_grid_count_update(g.skip(1), i - 1, j, v);
        assert(u[0] == g[0]);
    }
}

/// A row of empty cells counts no tile.
pub proof fn lemma_row_count_zero(r: Seq<u32>)
    requires
        forall|k: int| 0 <= k < r.len() ==> r[k] == 0,
    ensures
        row_nonzero_count(r) == 0,
    decreases r.len(),
{
    if r.len() > 0 {
        assert(forall|k: int| 0 <= k < r.skip(1).len() ==> r.skip(1)[k] == 0);
        lemma_row_count_zero(r.skip(1));
    }
}

/// A matrix of empty cells counts no tile.
pub proof fn lemma_grid_count_zero(g: Seq<Seq<u32>>)
    requires
        forall|i: int, j: int| 0 <= i < g.len() && 0 <= j < g[i].len() ==> g[i][j] == 0,
    ensures
        grid_nonzero_count(g) == 0,
    decreases g.len(),
{
    if g.len() > 0 {
        lemma_row_count_zero(g[0]);
        assert(forall|i: int, j: int|
            0 <= i < g.skip(1).len() && 0 <= j < g.skip(1)[i].len() ==> g.skip(1)[i][j] == 0);
        lemma_grid_count_zero(g.skip(1));
    }
}

/// The largest tile of an in-range row is in range.
pub proof fn lemma_row_max_in_range(r: Seq<u32>)
    requires
        row_in_range(r),
    ensures
        row_max_spec(r) < 0x8000_0000u32,
    decreases r.len(),
{
    if r.len() > 0 {
        assert(row_in_range(r.skip(1)));
        lemma_row_max_in_range(r.skip(1));
    }
}

/// The largest tile of an in-range matrix is in range.
pub proof fn lemma_grid_max_in_range(g: Seq<Seq<u32>>)
    requires
        grid_in_range(g),
    ensures
        grid_max_spec(g) < 0x8000_0000u32,
    decreases g.len(),
{
    if g.len() > 0 {
        lemma_row_max_in_range(g[0]);
        assert(grid_in_range(g.skip(1)));
        lemma_grid_max_in_range(g.skip(1));
    }
}

/// The largest tile of a row is zero or one of its cells.
pub proof fn lemma_row_max_is_cell(r: Seq<u32>)
    ensures
        row_max_spec(r) == 0 || exists|k: int| 0 <= k < r.len() && r[k] == row_max_spec(r),
    decreases r.len(),
{
    if r.len() > 0 {
        lemma_row_max_is_cell(r.skip(1));
        if row_max_spec(r) != 0 {
            if r[0] >= row_max_spec(r.skip(1)) {
                assert(r[0] == row_max_spec(r));
            } else {
                let k = choose|k: int|
                    0 <= k < r.skip(1).len() && r.skip(1)[k] == row_max_spec(r.skip(1));
                assert(r[k + 1] == row_max_spec(r));
            }
        }
    }
}

/// The largest tile of a matrix is zero or one of its cells.
pub proof fn lemma_grid_max_is_cell(g: Seq<Seq<u32>>)
    ensures
        grid_max_spec(g) == 0 || exists|i: int, j: int|
            0 <= i < g.len() && 0 <= j < g[i].len() && g[i][j] == grid_max_spec(g),
    decreases g.len(),
{
    if g.len() > 0 {
        lemma_grid_max_is_cell(g.skip(1));
        if grid_max_spec(g) != 0 {
            if row_max_spec(g[0]) >= grid_max_spec(g.skip(1)) {
                lemma_row_max_is_cell(g[0]);
                let k = choose|k: int| 0 <= k < g[0].len() && g[0][k] == row_max_spec(g[0]);
                assert(g[0][k] == grid_max_spec(g));
            } else {
                let (a, b) = choose|a: int, b: int|
                    0 <= a < g.skip(1).len() && 0 <= b < g.skip(1)[a].len() && g.skip(1)[a][b]
                        == grid_max_spec(g.skip(1));
                assert(g[a + 1][b] == grid_max_spec(g));
            }
        }
    }
}

/// The value the spawn policy picks is itself a proper tile, as long as the
/// board's largest value is zero or a proper in-range tile.
pub proof fn lemma_spawn_value_tile(policy: SpawnPolicy, largest: u32)
    requires
        largest == 0 || (is_tile(largest) && largest < 0x8000_0000),
    ensures
        is_tile(spawn_value_spec(policy, largest)),
        spawn_value_spec(policy, largest) != 0,
        spawn_value_spec(policy, largest) < 0x8000_0000,
{
    lemma2_to64();
    let v = spawn_value_spec(policy, largest);
    match policy {
        SpawnPolicy::Constant => {
            assert(MIN_TILE as nat == pow2(1));
        },
        SpawnPolicy::Scaled => {
            if largest / GROWTH_DIVISOR > 1 {
                let k = choose|k: nat| largest as nat == pow2(k);
                if k < 6 {
                    assert(pow2(k) <= pow2(5)) by {
                        if k < 5 {
                            lemma_pow2_strictly_increases(k, 5);
                        }
                    }
                    assert(largest / GROWTH_DIVISOR <= 1);
                } else {
                    lemma_pow2_subtracts(5, k);
                    assert(v as nat == pow2((k - 5) as nat));
                    assert(pow2(1) <= pow2((k - 5) as nat)) by {
                        if k > 6 {
                            lemma_pow2_strictly_increases(1, (k - 5) as nat);
                        }
                    }
                    assert(v >= 2);
                }
            } else {
                assert(MIN_TILE as nat == pow2(1));
            }
        },
    }
}

/// A quarter turn keeps every tile inside the doubling range.
pub proof fn lemma_rotate_in_range(g: Seq<Seq<u32>>)
    requires
        is_square(g),
        grid_in_range(g),
    ensures
        grid_in_range(rotate_spec(g)),
{
    let t = rotate_spec(g);
    assert forall|i: int| 0 <= i < t.len() implies row_in_range(t[i]) by {
        assert forall|j: int| 0 <= j < t[i].len() implies t[i][j] < 0x8000_0000u32 by {
            assert(t[i][j] == g[j][g.len() - 1 - i]);
        }
    }
}

/// Within the dimension bound, a zeroed score leaves headroom for a move.
pub proof fn lemma_dim_headroom(dim: usize)
    requires
        dim <= DIM_LIMIT,
    ensures
        0 + dim * dim * 0x8000_0000 <= u64::MAX,
{
    assert(dim <= 0xFFFF ==> dim * dim * 0x8000_0000 <= 0xFFFF * 0xFFFF * 0x8000_0000)
        by (nonlinear_arith);
}

/// Every tile that compaction keeps was on the row before.
proof fn lemma_compact_tiles(r: Seq<u32>)
    requires
        forall|k: int| 0 <= k < r.len() && r[k] != 0 ==> is_tile(#[trigger] r[k]),
    ensures
        forall|k: int|
            0 <= k < compact_spec(r).len() && compact_spec(r)[k] != 0 ==> is_tile(
                #[trigger] compact_spec(r)[k],
            ),
    decreases r.len(),
{
    if r.len() > 0 {
        assert(forall|k: int|
            0 <= k < r.skip(1).len() && r.skip(1)[k] != 0 ==> is_tile(#[trigger] r.skip(1)[k]));
        lemma_compact_tiles(r.skip(1));
        let c = compact_spec(r);
        if r[0] == 0 {
            assert(c == compact_spec(r.skip(1)));
        } else {
            assert forall|k: int| 0 <= k < c.len() && c[k] != 0 implies is_tile(c[k]) by {
                if k == 0 {
                    assert(c[0] == r[0]);
                } else {
                    assert(c[k] == compact_spec(r.skip(1))[k - 1]);
                }
            }
        }
    }
}

/// Every tile a merge pass keeps or creates is a proper tile: a kept tile
/// was one before, and a doubled power of two is the next power of two.
proof fn lemma_merge_tiles(r: Seq<u32>)
    requires
        row_in_range(r),
        forall|k: int| 0 <= k < r.len() && r[k] != 0 ==> is_tile(#[trigger] r[k]),
    ensures
        forall|k: int|
            0 <= k < merge_spec(r).len() && merge_spec(r)[k] != 0 ==> is_tile(
                #[trigger] merge_spec(r)[k],
            ),
    decreases r.len(),
{
    let m = merge_spec(r);
    if r.len() >= 2 && r[0] == r[1] {
        assert(row_in_range(r.skip(2)));
        assert(forall|k: int|
            0 <= k < r.skip(2).len() && r.skip(2)[k] != 0 ==> is_tile(#[trigger] r.skip(2)[k]));
        lemma_merge_tiles(r.skip(2));
        assert forall|k: int| 0 <= k < m.len() && m[k] != 0 implies is_tile(m[k]) by {
            if k == 0 {
                assert(m[0] == (2 * r[0]) as u32);
                if m[0] != 0 {
                    assert(r[0] != 0);
                    let e = choose|e: nat| r[0] as nat == pow2(e);
                    lemma_pow2_adds(1, e);
                    lemma2_to64();
                    assert(m[0] as nat == pow2(e + 1));
                }
            } else {
                assert(m[k] == merge_spec(r.skip(2))[k - 1]);
            }
        }
    } else if r.len() >= 1 {
        assert(row_in_range(r.skip(1)));
        assert(forall|k: int|
            0 <= k < r.skip(1).len() && r.skip(1)[k] != 0 ==> is_tile(#[trigger] r.skip(1)[k]));
        lemma_merge_tiles(r.skip(1));
        assert forall|k: int| 0 <= k < m.len() && m[k] != 0 implies is_tile(m[k]) by {
            if k == 0 {
                assert(m[0] == r[0]);
            } else {
                assert(m[k] == merge_spec(r.skip(1))[k - 1]);
            }
        }
    }
}

/// Sliding a row keeps every non-empty cell a proper tile.
proof fn lemma_slide_row_tiles(r: Seq<u32>, dim: nat)
    requires
        row_in_range(r),
        forall|k: int| 0 <= k < r.len() && r[k] != 0 ==> is_tile(#[trigger] r[k]),
    ensures
        forall|k: int|
            0 <= k < slide_row_spec(r, dim).len() && slide_row_spec(r, dim)[k] != 0 ==> is_tile(
                #[trigger] slide_row_spec(r, dim)[k],
            ),
{
    let c = compact_spec(r);
    let m = merge_spec(c);
    lemma_compact_tiles(r);
    crate::rows::lemma_compact_in_range(r);
    lemma_merge_tiles(c);
    let s = slide_row_spec(r, dim);
    assert forall|k: int| 0 <= k < s.len() && s[k] != 0 implies is_tile(s[k]) by {
        if k < m.len() {
            assert(s[k] == m[k]);
        } else {
            assert(s[k] == 0);
        }
    }
}

/// The spawn policy never places an empty cell, and its value stays in
/// range whenever the board's largest tile does.
proof fn lemma_spawn_value_nonzero(policy: SpawnPolicy, largest: u32)
    ensures
        spawn_value_spec(policy, largest) != 0,
        largest < 0x8000_0000 ==> spawn_value_spec(policy, largest) < 0x8000_0000,
{
    assert(largest < 0x8000_0000 ==> largest / GROWTH_DIVISOR < 0x8000_0000)
        by (nonlinear_arith);
}

/// Filling one empty cell keeps the board square, in range and made of
/// proper tiles, and is exactly what a spawn reports.
proof fn lemma_spawn_update_ok(pre: Seq<Seq<u32>>, x: int, y: int, v: u32, post: Seq<Seq<u32>>)
    requires
        0 <= x < pre.len(),
        0 <= y < pre[x].len(),
        pre[x][y] == 0,
        post == pre.update(x, pre[x].update(y, v)),
    ensures
        spawn_result(pre, post, v),
        grid_in_range(pre) && v < 0x8000_0000 ==> grid_in_range(post),
        grid_tiles_ok(pre) && is_tile(v) ==> grid_tiles_ok(post),
{
    if grid_in_range(pre) && v < 0x8000_0000 {
        assert forall|i: int| 0 <= i < post.len() implies row_in_range(post[i]) by {
            assert forall|j: int| 0 <= j < post[i].len() implies post[i][j]
                < 0x8000_0000u32 by {
                if i == x {
                    if j != y {
                        assert(post[i][j] == pre[i][j]);
                    }
                } else {
                    assert(post[i] == pre[i]);
                }
            }
        }
    }
    if grid_tiles_ok(pre) && is_tile(v) {
        assert forall|i: int, j: int|
            0 <= i < post.len() && 0 <= j < post[i].len() && post[i][j] != 0 implies is_tile(
            post[i][j],
        ) by {
            if i == x {
                if j != y {
                    assert(post[i][j] == pre[i][j]);
                }
            } else {
                assert(post[i] == pre[i]);
            }
        }
    }
}

/// A cell-for-cell copy of one row.
fn copy_row(src: &Vec<u32>) -> (out: Vec<u32>)
    ensures
        out@ == src@,
{
    let mut out: Vec<u32> = Vec::new();
    let mut j: usize = 0;
    while j < src.len()
        invariant
            j <= src@.len(),
            out@.len() == j,
            forall|k: int| 0 <= k < j ==> out@[k] == src@[k],
        decreases src@.len() - j,
    {
        out.push(src[j]);
        j = j + 1;
    }
    proof {
        assert(out@ =~= src@);
    }
    out
}

/// The largest tile of one row.
fn row_max(row: &Vec<u32>) -> (m: u32)
    ensures
        m == row_max_spec(row@),
{
    let ghost r = row@;
    let mut m: u32 = 0;
    let mut j: usize = 0;
    proof {
        assert(r.skip(0) =~= r);
    }
    while j < row.len()
        invariant
            j <= r.len(),
            row@ == r,
            row_max_spec(r) == (if m >= row_max_spec(r.skip(j as int)) {
                m
            } else {
                row_max_spec(r.skip(j as int))
            }),
        decreases r.len() - j,
    {
        proof {
            assert(r.skip(j as int).skip(1) =~= r.skip(j as int + 1));
            assert(r.skip(j as int)[0] == r[j as int]);
        }
        if row[j] > m {
            m = row[j];
        }
        j = j + 1;
    }
    proof {
        assert(r.skip(r.len() as int) =~= Seq::<u32>::empty());
    }
    m
}

/// The largest tile of the matrix.
fn grid_max(g: &Vec<Vec<u32>>) -> (m: u32)
    ensures
        m == grid_max_spec(view_of(*g)),
{
    let ghost v = view_of(*g);
    let mut m: u32 = 0;
    let mut i: usize = 0;
    proof {
        assert(v.skip(0) =~= v);
    }
    while i < g.len()
        invariant
            i <= v.len(),
            view_of(*g) == v,
            g@.len() == v.len(),
            grid_max_spec(v) == (if m >= grid_max_spec(v.skip(i as int)) {
                m
            } else {
                grid_max_spec(v.skip(i as int))
            }),
        decreases v.len() - i,
    {
        proof {
            assert(v.skip(i as int).skip(1) =~= v.skip(i as int + 1));
            assert(v.skip(i as int)[0] == v[i as int]);
            assert(g@[i as int]@ == v[i as int]);
        }
        let rm = row_max(&g[i]);
        if rm > m {
            m = rm;
        }
        i = i + 1;
    }
    proof {
        assert(v.skip(v.len() as int) =~= Seq::<Seq<u32>>::empty());
    }
    m
}

/// The value the policy spawns, given the largest tile on the board.
pub fn spawn_value(policy: SpawnPolicy, largest: u32) -> (v: u32)
    ensures
        v == spawn_value_spec(policy, largest),
{
    match policy {
        SpawnPolicy::Constant => MIN_TILE,
        SpawnPolicy::Scaled => {
            let scaled = largest / GROWTH_DIVISOR;
            if scaled > 1 {
                scaled
            } else {
                MIN_TILE
            }
        },
    }
}

/// A cell-for-cell copy of the tile matrix.
fn copy_grid(src: &Vec<Vec<u32>>) -> (out: Vec<Vec<u32>>)
    ensures
        view_of(out) == view_of(*src),
{
    let mut out: Vec<Vec<u32>> = Vec::new();
    let mut i: usize = 0;
    while i < src.len()
        invariant
            i <= src@.len(),
            out@.len() == i,
            forall|r: int| 0 <= r < i ==> out@[r]@ == src@[r]@,
        decreases src@.len() - i,
    {
        let mut row: Vec<u32> = Vec::new();
        let mut j: usize = 0;
        while j < src[i].len()
            invariant
                i < src@.len(),
                j <= src@[i as int]@.len(),
                row@.len() == j,
                forall|k: int| 0 <= k < j ==> row@[k] == src@[i as int]@[k],
            decreases src@[i as int]@.len() - j,
        {
            row.push(src[i][j]);
            j = j + 1;
        }
        proof {
            assert(row@ =~= src@[i as int]@);
        }
        out.push(row);
        i = i + 1;
    }
    proof {
        assert(view_of(out) =~~= view_of(*src));
    }
    out
}

/// Whether two tile matrices hold the same cells.
fn grids_equal(a: &Vec<Vec<u32>>, b: &Vec<Vec<u32>>) -> (eq: bool)
    ensures
        eq == (view_of(*a) == view_of(*b)),
{
    if a.len() != b.len() {
        proof {
            assert(view_of(*a).len() == a@.len());
            assert(view_of(*b).len() == b@.len());
        }
        return false;
    }
    let mut i: usize = 0;
    while i < a.len()
        invariant
            a@.len() == b@.len(),
            i <= a@.len(),
            forall|r: int| 0 <= r < i ==> a@[r]@ == b@[r]@,
        decreases a@.len() - i,
    {
        if a[i].len() != b[i].len() {
            proof {
                assert(view_of(*a)[i as int] == a@[i as int]@);
                assert(view_of(*b)[i as int] == b@[i as int]@);
            }
            return false;
        }
        let mut j: usize = 0;
        while j < a[i].len()
            invariant
                a@.len() == b@.len(),
                i < a@.len(),
                a@[i as int]@.len() == b@[i as int]@.len(),
                j <= a@[i as int]@.len(),
                forall|k: int| 0 <= k < j ==> a@[i as int]@[k] == b@[i as int]@[k],
            decreases a@[i as int]@.len() - j,
        {
            if a[i][j] != b[i][j] {
                proof {
                    assert(view_of(*a)[i as int][j as int] != view_of(*b)[i as int][j as int]);
                }
                return false;
            }
            j = j + 1;
        }
        proof {
            assert(a@[i as int]@ =~= b@[i as int]@);
        }
        i = i + 1;
    }
    proof {
        assert(view_of(*a) =~~= view_of(*b));
    }
    true
}

} // verus!

use vstd::prelude::*;
use vstd::string::StringExecFns;

use crate::pathfinder::MAX_CELLS;
use crate::pathfinder::Pathfinder;
use crate::pathfinder::valid_config;
use crate::vector::Vector2;

verus! {

/// Cost of one diagonal step (an integer approximation of `10 * sqrt(2)`).
pub const DIAGONAL_COST: i32 = 14;

/// Cost of one axis-aligned step.
pub const STRAIGHT_COST: i32 = 10;

/// `|a - b|` over mathematical integers.
pub open spec fn abs_diff(a: int, b: int) -> int {
    if a >= b {
        a - b
    } else {
        b - a
    }
}

/// Octile distance between two grid positions: the exact cost of the
/// cheapest 8-connected walk between them on an unobstructed grid, using
/// [`STRAIGHT_COST`] for axis-aligned steps and [`DIAGONAL_COST`] for
/// diagonal ones.
pub open spec fn octile(p1: Vector2<usize>, p2: Vector2<usize>) -> int {
    let dx = abs_diff(p1.x as int, p2.x as int);
    let dy = abs_diff(p1.y as int, p2.y as int);
    let mn = if dx <= dy { dx } else { dy };
    let mx = if dx <= dy { dy } else { dx };
    mn * (DIAGONAL_COST as int) + (mx - mn) * (STRAIGHT_COST as int)
}

/// The admissible, consistent heuristic of the engine.
pub fn distance(pos1: &Vector2<usize>, pos2: &Vector2<usize>) -> (d: i32)
    requires
        pos1.x as int <= MAX_CELLS as int,
        pos1.y as int <= MAX_CELLS as int,
        pos2.x as int <= MAX_CELLS as int,
        pos2.y as int <= MAX_CELLS as int,
    ensures
        d as int == octile(*pos1, *pos2),
        0 <= d,
{
    let dx = if pos1.x >= pos2.x {
        pos1.x - pos2.x
    } else {
        pos2.x - pos1.x
    };
    let dy = if pos1.y >= pos2.y {
        pos1.y - pos2.y
    } else {
        pos2.y - pos1.y
    };

    let mn = if dx <= dy { dx } else { dy };
    let mx = if dx <= dy { dy } else { dx };

    (mn as i32) * DIAGONAL_COST + ((mx - mn) as i32) * STRAIGHT_COST
}

/// One frontier entry: a position together with the exact cost `g_cost`
/// accumulated from the start and the heuristic estimate `h_cost` toward
/// the goal at the time the entry was pushed.
#[derive(Clone, Copy, Debug, PartialEq, Eq)]
pub struct AStarNode {
    pub pos: Vector2<usize>,
    pub g_cost: i32,
    pub h_cost: i32,
    pub prev_pos: Option<Vector2<usize>>,
}

impl AStarNode {
    /// The priority of the node: total estimated cost through it.
    pub fn f_cost(&self) -> (r: i32)
        requires
            i32::MIN <= self.g_cost + self.h_cost <= i32::MAX,
        ensures
            r as int == self.g_cost + self.h_cost,
    {
        self.g_cost + self.h_cost
    }
}

/// The priority order of the frontier: strictly smaller `f = g + h` first,
/// and among equal `f` the node with the strictly smaller heuristic
/// estimate `h` (the one that looks closer to the goal).
pub open spec fn pops_before(a: AStarNode, b: AStarNode) -> bool {
    ||| a.g_cost + a.h_cost < b.g_cost + b.h_cost
    ||| (a.g_cost + a.h_cost == b.g_cost + b.h_cost && a.h_cost < b.h_cost)
}

/// The grid position with column `x` and row `y`.
pub open spec fn grid_pos(x: int, y: int) -> Vector2<usize> {
    Vector2 { x: x as usize, y: y as usize }
}

/// The index of cell `(x, y)` in a flat row-major table with `cols`
/// columns.
pub open spec fn idx_at(x: int, y: int, cols: int) -> int {
    y * cols + x
}

/// Are `p` and `q` distinct cells that one 8-connected step joins?
pub open spec fn adjacent(p: Vector2<usize>, q: Vector2<usize>) -> bool {
    &&& abs_diff(p.x as int, q.x as int) <= 1
    &&& abs_diff(p.y as int, q.y as int) <= 1
    &&& p != q
}

/// The step cost between two adjacent cells: diagonal if both coordinates
/// change, straight otherwise.
pub open spec fn move_cost(p: Vector2<usize>, q: Vector2<usize>) -> int {
    if p.x != q.x && p.y != q.y {
        DIAGONAL_COST as int
    } else {
        STRAIGHT_COST as int
    }
}

/// How many cells of the record table carry a finite cost, i.e. have been
/// reached at least once.
pub open spec fn visited_count(s: Seq<AStarNode>) -> int
    decreases s.len(),
{
    if s.len() == 0 {
        0
    } else {
        visited_count(s.drop_last()) + if s.last().g_cost != i32::MAX {
            1int
        } else {
            0int
        }
    }
}

/// The total of all recorded costs (the "infinity" sentinel included).
/// Every relaxation lowers some record by at least as much as it grows the
/// frontier, which makes this the backbone of the search's termination
/// measure.
pub open spec fn g_sum(s: Seq<AStarNode>) -> int
    decreases s.len(),
{
    if s.len() == 0 {
        0
    } else {
        g_sum(s.drop_last()) + s.last().g_cost
    }
}

/// The record every cell starts a search with: the "infinity" sentinel cost,
/// no predecessor, and the octile estimate toward the goal.
pub open spec fn blank_node(x: int, y: int, end_pos: Vector2<usize>) -> AStarNode {
    AStarNode {
        pos: grid_pos(x, y),
        g_cost: i32::MAX,
        h_cost: octile(grid_pos(x, y), end_pos) as i32,
        prev_pos: None,
    }
}

/// The character for one decimal digit.
pub open spec fn digit_char(d: int) -> char {
    if d == 0 {
        '0'
    } else if d == 1 {
        '1'
    } else if d == 2 {
        '2'
    } else if d == 3 {
        '3'
    } else if d == 4 {
        '4'
    } else if d == 5 {
        '5'
    } else if d == 6 {
        '6'
    } else if d == 7 {
        '7'
    } else if d == 8 {
        '8'
    } else {
        '9'
    }
}

/// The decimal rendering of a non-negative integer, most significant digit
/// first.
pub open spec fn dec_str(n: int) -> Seq<char>
    decreases n,
{
    if n < 10 {
        seq![digit_char(n)]
    } else {
        dec_str(n / 10) + seq![digit_char(n % 10)]
    }
}

/// The debug token of a visited cell: its recorded cost and its heuristic
/// estimate, separated by a bar.
pub open spec fn state_token(g: int, h: int) -> Seq<char> {
    dec_str(g) + seq!['|'] + dec_str(h)
}

/// The frontier entry that `init` seeds the search with.
pub open spec fn start_node(start_pos: Vector2<usize>, end_pos: Vector2<usize>) -> AStarNode {
    AStarNode {
        pos: start_pos,
        g_cost: 0,
        h_cost: octile(start_pos, end_pos) as i32,
        prev_pos: None,
    }
}

/// The incremental A* engine.
///
/// The frontier is a priority structure ordered by [`pops_before`]; the
/// per-cell records (best known cost and predecessor) live in one flat
/// row-major table. All observable behaviour is specified on the
/// [`Pathfinder`] implementation below.
pub struct AStar {
    frontier: Vec<AStarNode>,
    curr_node: Option<AStarNode>,
    state: Vec<AStarNode>,

    rows: i32,
    cols: i32,
    end_pos: Vector2<usize>,
    walls: Vec<Vec<bool>>,
    start_pos: Ghost<Vector2<usize>>,
}

impl AStar {
    /// The goal position of the current search.
    pub closed spec fn end(self) -> Vector2<usize> {
        self.end_pos
    }

    /// The start position of the current search.
    pub closed spec fn start(self) -> Vector2<usize> {
        self.start_pos@
    }

    /// The wall matrix of the current search, row by row.
    pub closed spec fn walls_view(self) -> Seq<Vec<bool>> {
        self.walls@
    }

    /// The frontier entries, in their internal storage order.
    pub closed spec fn frontier_view(self) -> Seq<AStarNode> {
        self.frontier@
    }

    /// The most recently expanded node, if any.
    pub closed spec fn curr(self) -> Option<AStarNode> {
        self.curr_node
    }

    /// Is `(x, y)` a cell of the current grid?
    pub closed spec fn in_bounds(self, x: int, y: int) -> bool {
        0 <= x < self.cols as int && 0 <= y < self.rows as int
    }

    /// Is the cell `(x, y)` a wall?
    pub closed spec fn wall_at(self, x: int, y: int) -> bool {
        self.walls@[y]@[x]
    }

    /// The record of cell `(x, y)` in the flat row-major table.
    pub closed spec fn cell_at(self, x: int, y: int) -> AStarNode {
        self.state@[idx_at(x, y, self.cols as int)]
    }

    /// Best known cost from the start to `(x, y)`; `i32::MAX` is the
    /// "unvisited" sentinel.
    pub closed spec fn g_at(self, x: int, y: int) -> int {
        self.cell_at(x, y).g_cost as int
    }

    /// The heuristic estimate recorded for `(x, y)`.
    pub closed spec fn h_at(self, x: int, y: int) -> int {
        self.cell_at(x, y).h_cost as int
    }

    /// The predecessor recorded for `(x, y)`, if any.
    pub closed spec fn pred_at(self, x: int, y: int) -> Option<Vector2<usize>> {
        self.cell_at(x, y).prev_pos
    }

    /// Has `(x, y)` been reached at least once in this search?
    pub closed spec fn visited_at(self, x: int, y: int) -> bool {
        self.g_at(x, y) != i32::MAX as int
    }

    /// How many cells have been reached so far.
    pub closed spec fn vcount(self) -> int {
        visited_count(self.state@)
    }

    /// A well-founded measure of the work a search can still do: the size
    /// of the frontier plus the total of all recorded costs. Every
    /// productive `step` strictly decreases it (see `step`'s contract), and
    /// under the engine invariant it never goes negative — so repeated
    /// stepping must reach the goal or exhaust the frontier.
    pub closed spec fn search_measure(self) -> int {
        self.frontier@.len() + g_sum(self.state@)
    }

    /// The search measure never goes negative: no recorded cost does.
    pub proof fn lemma_measure_nonneg(self)
        requires
            self.inv(),
        ensures
            0 <= self.search_measure(),
    {
        assert forall|k: int| 0 <= k < self.state@.len() implies 0 <= (
        #[trigger] self.state@[k]).g_cost by {
            let c = self.cols as int;
            assert(c != 0) by {
                if c == 0 {
                    assert((self.rows as int) * c == 0) by (nonlinear_arith)
                        requires
                            c == 0,
                    ;
                }
            }
            let yy = k / c;
            let xx = k % c;
            vstd::arithmetic::div_mod::lemma_fundamental_div_mod(k, c);
            assert(0 <= xx < c) by {
                vstd::arithmetic::div_mod::lemma_mod_division_less_than_divisor(k, c);
            }
            assert(0 <= yy < self.rows as int) by {
                assert(yy * c + xx == k);
                if yy < 0 {
                    lemma_mul_le(yy + 1, 0, c);
                    assert(yy * c + c <= 0);
                }
                if yy >= self.rows as int {
                    lemma_mul_le(self.rows as int, yy, c);
                }
            }
            assert(self.cell_ok(xx, yy));
            assert(c * yy == yy * c) by (nonlinear_arith);
            assert(idx_at(xx, yy, c) == k);
            assert(self.state@[idx_at(xx, yy, c)] == self.state@[k]);
        }
        lemma_g_sum_nonneg(self.state@);
    }

    /// Shape of the engine's tables: a grid of at most [`MAX_CELLS`] cells,
    /// one record per cell, and a wall matrix of matching dimensions.
    closed spec fn dims_ok(self) -> bool {
        &&& 0 <= self.rows as int
        &&& 0 <= self.cols as int
        &&& (self.rows as int) * (self.cols as int) <= MAX_CELLS as int
        &&& self.state@.len() == (self.rows as int) * (self.cols as int)
        &&& self.walls@.len() == self.rows as int
        &&& forall|i: int|
            0 <= i < self.rows as int ==> (#[trigger] self.walls@[i])@.len() == self.cols as int
    }

    /// Invariant of one cell record: it knows its own position and heuristic,
    /// a finite cost is non-negative, bounded by `14 * (vcount - 1)`, only
    /// recorded for non-wall cells, and justified by its predecessor link
    /// (or by being the start cell at cost 0).
    closed spec fn cell_ok(self, x: int, y: int) -> bool {
        let n = self.cell_at(x, y);
        &&& n.pos == grid_pos(x, y)
        &&& n.h_cost as int == octile(n.pos, self.end())
        &&& if n.g_cost == i32::MAX {
            n.prev_pos is None
        } else {
            &&& 0 <= n.g_cost as int
            &&& n.g_cost as int <= 14 * (self.vcount() - 1)
            &&& !self.wall_at(x, y)
            &&& match n.prev_pos {
                None => n.pos == self.start() && n.g_cost == 0,
                Some(p) => {
                    &&& self.in_bounds(p.x as int, p.y as int)
                    &&& adjacent(p, n.pos)
                    &&& self.visited_at(p.x as int, p.y as int)
                    &&& self.g_at(p.x as int, p.y as int) + move_cost(p, n.pos) <= n.g_cost as int
                },
            }
        }
    }

    /// Invariant of a frontier entry (and of the current node): it lies on a
    /// passable cell of the grid, its heuristic is the octile distance to the
    /// goal, its cost is bounded, and the authoritative record of its cell is
    /// finite and at most its own cost.
    closed spec fn node_ok(self, n: AStarNode) -> bool {
        &&& self.in_bounds(n.pos.x as int, n.pos.y as int)
        &&& !self.wall_at(n.pos.x as int, n.pos.y as int)
        &&& n.h_cost as int == octile(n.pos, self.end())
        &&& 0 <= n.g_cost as int
        &&& n.g_cost as int <= 14 * (self.vcount() - 1)
        &&& self.visited_at(n.pos.x as int, n.pos.y as int)
        &&& self.g_at(n.pos.x as int, n.pos.y as int) <= n.g_cost as int
    }

    /// Number of rows of the grid of the current search.
    pub closed spec fn grid_rows(self) -> int {
        self.rows as int
    }

    /// Number of columns of the grid of the current search.
    pub closed spec fn grid_cols(self) -> int {
        self.cols as int
    }

    /// The full engine invariant.
    pub closed spec fn inv(self) -> bool {
        &&& self.dims_ok()
        &&& forall|x: int, y: int| self.in_bounds(x, y) ==> #[trigger] self.cell_ok(x, y)
        &&& (self.rows as int > 0 && self.cols as int > 0 ==> {
            let s = self.start();
            let e = self.end();
            &&& self.in_bounds(s.x as int, s.y as int)
            &&& self.in_bounds(e.x as int, e.y as int)
            &&& !self.wall_at(s.x as int, s.y as int)
            &&& !self.wall_at(e.x as int, e.y as int)
            &&& self.g_at(s.x as int, s.y as int) == 0
            &&& self.pred_at(s.x as int, s.y as int) is None
        })
        &&& forall|k: int|
            0 <= k < self.frontier@.len() ==> self.node_ok(#[trigger] self.frontier@[k])
        &&& match self.curr_node {
            None => true,
            Some(n) => self.node_ok(n),
        }
    }
}

impl Default for AStar {
    /// An engine with no search in progress: a 0-by-0 grid, an empty
    /// frontier and no current node. Every query on it returns an empty
    /// result, and `init` must run before a search can make progress.
    fn default() -> (r: Self)
        ensures
            r.inv(),
            r.grid_rows() == 0,
            r.grid_cols() == 0,
            r.frontier_view().len() == 0,
            r.curr() is None,
            r.walls_view().len() == 0,
    {
        AStar {
            frontier: Vec::new(),
            curr_node: None,
            state: Vec::new(),
            rows: 0,
            cols: 0,
            end_pos: Vector2 { x: 0, y: 0 },
            walls: Vec::new(),
            start_pos: Ghost(Vector2 { x: 0, y: 0 }),
        }
    }
}

impl AStar {
    /// Discards any prior search state and begins a new search.
    ///
    /// Afterwards the frontier holds exactly the start node, no node is
    /// current, the start cell is recorded at cost 0, and every other cell
    /// is unvisited with no predecessor and the octile estimate toward
    /// `end_pos`.
    pub fn init(
        &mut self,
        rows: i32,
        cols: i32,
        start_pos: Vector2<usize>,
        end_pos: Vector2<usize>,
        walls: Vec<Vec<bool>>,
    )
        requires
            valid_config(rows, cols, start_pos, end_pos, walls@),
        ensures
            final(self).inv(),
            final(self).grid_rows() == rows as int,
            final(self).grid_cols() == cols as int,
            final(self).start() == start_pos,
            final(self).end() == end_pos,
            final(self).walls_view() == walls@,
            final(self).curr() is None,
            final(self).covered(),
            final(self).frontier_view() == seq![start_node(start_pos, end_pos)],
            forall|x: int, y: int|
                final(self).in_bounds(x, y) ==> {
                    &&& #[trigger] final(self).g_at(x, y) == if grid_pos(x, y) == start_pos {
                        0int
                    } else {
                        i32::MAX as int
                    }
                    &&& final(self).pred_at(x, y) is None
                    &&& final(self).h_at(x, y) == octile(grid_pos(x, y), end_pos)
                },
    {
        proof {
            lemma_dims_le(rows as int, cols as int, MAX_CELLS as int);
        }
        self.frontier = Vec::new();
        let h0 = distance(&start_pos, &end_pos);
        self.frontier.push(AStarNode { pos: start_pos, g_cost: 0, h_cost: h0, prev_pos: None });

        self.curr_node = None;

        let mut state: Vec<AStarNode> = Vec::new();
        let mut y: usize = 0;
        while y < rows as usize
            invariant
                y <= rows as int,
                0 < rows,
                0 < cols,
                (rows as int) * (cols as int) <= MAX_CELLS as int,
                rows as int <= MAX_CELLS as int,
                cols as int <= MAX_CELLS as int,
                (end_pos.x as int) < cols as int,
                (end_pos.y as int) < rows as int,
                state@.len() == y * (cols as int),
                forall|yy: int, xx: int|
                    0 <= yy < y && 0 <= xx < cols as int ==> #[trigger] state@[yy * (cols as int)
                        + xx] == blank_node(xx, yy, end_pos),
            decreases rows as int - y,
        {
            let mut x: usize = 0;
            while x < cols as usize
                invariant
                    x <= cols as int,
                    y < rows as int,
                    0 < rows,
                    0 < cols,
                    (rows as int) * (cols as int) <= MAX_CELLS as int,
                    rows as int <= MAX_CELLS as int,
                    cols as int <= MAX_CELLS as int,
                    (end_pos.x as int) < cols as int,
                    (end_pos.y as int) < rows as int,
                    state@.len() == y * (cols as int) + x,
                    forall|yy: int, xx: int|
                        0 <= yy < y && 0 <= xx < cols as int ==> #[trigger] state@[yy * (cols
                            as int) + xx] == blank_node(xx, yy, end_pos),
                    forall|xx: int|
                        0 <= xx < x ==> #[trigger] state@[y * (cols as int) + xx] == blank_node(
                            xx,
                            y as int,
                            end_pos,
                        ),
                decreases cols as int - x,
            {
                proof {
                    lemma_idx_bounds(x as int, y as int, rows as int, cols as int);
                }
                let pos = Vector2 { x, y };
                let h = distance(&end_pos, &pos);
                state.push(AStarNode { pos, g_cost: i32::MAX, h_cost: h, prev_pos: None });
                proof {
                    assert(octile(end_pos, pos) == octile(pos, end_pos));
                    assert(state@[y * (cols as int) + x as int] == blank_node(
                        x as int,
                        y as int,
                        end_pos,
                    ));
                    assert forall|yy: int, xx: int|
                        0 <= yy < y && 0 <= xx < cols as int implies #[trigger] state@[yy * (cols
                        as int) + xx] == blank_node(xx, yy, end_pos) by {
                        lemma_idx_bounds(xx, yy, y as int, cols as int);
                        lemma_mul_le(yy + 1, y as int, cols as int);
                    }
                }
                x = x + 1;
            }
            proof {
                assert((y as int + 1) * (cols as int) == y * (cols as int) + cols as int)
                    by (nonlinear_arith);
            }
            y = y + 1;
        }

        proof {
            lemma_idx_bounds(start_pos.x as int, start_pos.y as int, rows as int, cols as int);
        }
        let sidx = start_pos.y * (cols as usize) + start_pos.x;
        let mut snode = state[sidx];
        snode.g_cost = 0;
        state.set(sidx, snode);

        self.state = state;
        self.rows = rows;
        self.cols = cols;
        self.end_pos = end_pos;
        self.walls = walls;
        self.start_pos = Ghost(start_pos);

        proof {
            let c = cols as int;
            let r = rows as int;
            let sx = start_pos.x as int;
            let sy = start_pos.y as int;
            assert forall|x: int, y: int| 0 <= x < c && 0 <= y < r implies #[trigger] self.state@[y
                * c + x] == (if grid_pos(x, y) == start_pos {
                AStarNode { g_cost: 0, ..blank_node(x, y, end_pos) }
            } else {
                blank_node(x, y, end_pos)
            }) by {
                lemma_idx_bounds(x, y, r, c);
                if y * c + x == sy * c + sx {
                    lemma_idx_inj(x, y, sx, sy, c);
                }
            }
            self.lemma_init_inv(rows, cols, start_pos, end_pos);
        }
    }

    /// After `init` has filled the tables, the engine invariant and the
    /// advertised fresh-search shape hold.
    proof fn lemma_init_inv(
        self,
        rows: i32,
        cols: i32,
        start_pos: Vector2<usize>,
        end_pos: Vector2<usize>,
    )
        requires
            self.rows == rows,
            self.cols == cols,
            self.end_pos == end_pos,
            self.start_pos@ == start_pos,
            self.curr_node is None,
            valid_config(rows, cols, start_pos, end_pos, self.walls@),
            self.state@.len() == (rows as int) * (cols as int),
            self.frontier@ =~= seq![start_node(start_pos, end_pos)],
            forall|x: int, y: int|
                0 <= x < cols as int && 0 <= y < rows as int ==> #[trigger] self.state@[y * (cols
                    as int) + x] == if grid_pos(x, y) == start_pos {
                    AStarNode { g_cost: 0, ..blank_node(x, y, end_pos) }
                } else {
                    blank_node(x, y, end_pos)
                },
        ensures
            self.inv(),
            self.vcount() == 1,
            self.covered(),
            forall|x: int, y: int|
                self.in_bounds(x, y) ==> {
                    &&& #[trigger] self.g_at(x, y) == if grid_pos(x, y) == start_pos {
                        0int
                    } else {
                        i32::MAX as int
                    }
                    &&& self.pred_at(x, y) is None
                    &&& self.h_at(x, y) == octile(grid_pos(x, y), end_pos)
                },
    {
        let c = cols as int;
        let r = rows as int;
        let sx = start_pos.x as int;
        let sy = start_pos.y as int;
        let sidx = sy * c + sx;
        lemma_idx_bounds(sx, sy, r, c);
        lemma_dims_le(r, c, MAX_CELLS as int);

        // Every cell other than the start carries the sentinel; so the
        // visited count is exactly 1.
        assert forall|k: int| 0 <= k < self.state@.len() && k != sidx implies (
        #[trigger] self.state@[k]).g_cost == i32::MAX by {
            let yy = k / c;
            let xx = k % c;
            vstd::arithmetic::div_mod::lemma_fundamental_div_mod(k, c);
            assert(0 <= xx < c) by {
                vstd::arithmetic::div_mod::lemma_mod_division_less_than_divisor(k, c);
            }
            assert(0 <= yy < r) by {
                assert(yy * c + xx == k);
                if yy < 0 {
                    lemma_mul_le(yy + 1, 0, c);
                    assert(yy * c + c <= 0);
                }
                if yy >= r {
                    lemma_mul_le(r, yy, c);
                }
            }
            assert(self.state@[yy * c + xx] == if grid_pos(xx, yy) == start_pos {
                AStarNode { g_cost: 0, ..blank_node(xx, yy, end_pos) }
            } else {
                blank_node(xx, yy, end_pos)
            });
            if grid_pos(xx, yy) == start_pos {
                lemma_idx_inj(xx, yy, sx, sy, c);
                assert(false);
            }
        }
        self.lemma_count_single(sidx);

        assert forall|x: int, y: int| self.in_bounds(x, y) implies #[trigger] self.cell_ok(x, y)
            && self.g_at(x, y) == (if grid_pos(x, y) == start_pos {
            0int
        } else {
            i32::MAX as int
        }) && self.pred_at(x, y) is None && self.h_at(x, y) == octile(grid_pos(x, y), end_pos) by {
            lemma_idx_bounds(x, y, r, c);
            lemma_octile_range(grid_pos(x, y), end_pos);
            assert(abs_diff(x, end_pos.x as int) < c && abs_diff(y, end_pos.y as int) < r);
            assert(octile(grid_pos(x, y), end_pos) <= i32::MAX as int);
            if grid_pos(x, y) == start_pos {
                lemma_idx_inj(x, y, sx, sy, c);
            } else {
                if y * c + x == sidx {
                    lemma_idx_inj(x, y, sx, sy, c);
                }
            }
        }
        assert(self.cell_ok(sx, sy));
        assert(self.node_ok(start_node(start_pos, end_pos))) by {
            lemma_octile_range(start_pos, end_pos);
        }
        assert forall|k: int| 0 <= k < self.frontier@.len() implies self.node_ok(
            #[trigger] self.frontier@[k],
        ) by {
            assert(self.frontier@[k] == start_node(start_pos, end_pos));
        }

        // Only the start cell is reached, and the frontier's single entry
        // sits on it at cost 0, so every useful walk is covered at its
        // first cell.
        assert forall|q: Seq<Vector2<usize>>|
            {
                let w = q[0];
                let z = q[q.len() - 1];
                (#[trigger] self.is_walk(q)) && self.visited_at(w.x as int, w.y as int)
                    && self.g_at(z.x as int, z.y as int) > self.g_at(w.x as int, w.y as int)
                    + path_cost(q)
            } implies self.covers(q) by {
            let w = q[0];
            assert(self.in_bounds(w.x as int, w.y as int));
            assert(grid_pos(w.x as int, w.y as int) == w);
            assert(self.g_at(w.x as int, w.y as int) == 0 && w == start_pos);
            assert(self.frontier@[0] == start_node(start_pos, end_pos));
            assert(q.take(1).len() == 1);
            assert(path_cost(q.take(1)) == 0);
            assert(self.frontier@[0].pos == q[0] && self.frontier@[0].g_cost <= self.g_at(
                q[0].x as int,
                q[0].y as int,
            ) + path_cost(q.take(1)));
        }
    }

    /// Under the engine invariant, every cost a frontier node carries is
    /// small enough that its priority `f = g + h` fits comfortably in `i32`.
    proof fn lemma_node_costs(self, n: AStarNode)
        requires
            self.inv(),
            self.node_ok(n),
        ensures
            0 <= n.g_cost + n.h_cost < i32::MAX,
    {
        let r = self.rows as int;
        let c = self.cols as int;
        let m = MAX_CELLS as int;
        lemma_count_bounds(self.state@);
        lemma_octile_range(n.pos, self.end_pos);
        lemma_dims_le(r, c, m);
        assert(r + c <= r * c + 1) by (nonlinear_arith)
            requires
                1 <= r,
                1 <= c,
        ;
        assert(abs_diff(n.pos.x as int, self.end_pos.x as int) <= c - 1);
        assert(abs_diff(n.pos.y as int, self.end_pos.y as int) <= r - 1);
    }

    /// Removes and returns the frontier entry that must be expanded next:
    /// among all queued entries, one with minimal priority under
    /// [`pops_before`] (smallest `f`, ties to the smallest `h`), and among
    /// fully tied entries the one queued earliest. Returns `None` on an
    /// empty frontier. Nothing but the frontier changes.
    fn pop_best(&mut self) -> (r: Option<AStarNode>)
        requires
            old(self).inv(),
        ensures
            final(self).inv(),
            final(self).state == old(self).state,
            final(self).curr_node == old(self).curr_node,
            final(self).rows == old(self).rows,
            final(self).cols == old(self).cols,
            final(self).end_pos == old(self).end_pos,
            final(self).walls == old(self).walls,
            final(self).start_pos == old(self).start_pos,
            r is None <==> old(self).frontier@.len() == 0,
            r is None ==> final(self).frontier == old(self).frontier,
            r matches Some(n) ==> {
                &&& exists|k: int|
                    {
                        &&& 0 <= k < old(self).frontier@.len()
                        &&& n == old(self).frontier@[k]
                        &&& final(self).frontier@ == old(self).frontier@.remove(k)
                        &&& forall|j: int|
                            0 <= j < k ==> pops_before(n, #[trigger] old(self).frontier@[j])
                    }
                &&& forall|j: int|
                    0 <= j < old(self).frontier@.len() ==> !pops_before(
                        #[trigger] old(self).frontier@[j],
                        n,
                    )
            },
    {
        if self.frontier.len() == 0 {
            return None;
        }
        let ghost fr = self.frontier@;
        let mut best: usize = 0;
        let mut m: usize = 1;
        while m < self.frontier.len()
            invariant
                self.inv(),
                self.frontier@ == fr,
                1 <= m <= fr.len(),
                best < m,
                forall|j: int| 0 <= j < m ==> !pops_before(#[trigger] fr[j], fr[best as int]),
                forall|j: int| 0 <= j < best ==> pops_before(fr[best as int], #[trigger] fr[j]),
            decreases fr.len() - m,
        {
            proof {
                assert(self.node_ok(fr[best as int]));
                assert(self.node_ok(fr[m as int]));
                self.lemma_node_costs(fr[best as int]);
                self.lemma_node_costs(fr[m as int]);
            }
            let fb = self.frontier[best].f_cost();
            let fm = self.frontier[m].f_cost();
            if fm < fb || (fm == fb && self.frontier[m].h_cost < self.frontier[best].h_cost) {
                best = m;
            }
            m = m + 1;
        }
        let popped = self.frontier.remove(best);
        proof {
            assert forall|k: int| 0 <= k < self.frontier@.len() implies self.node_ok(
                #[trigger] self.frontier@[k],
            ) by {
                assert(self.frontier@ == fr.remove(best as int));
                if k < best as int {
                    assert(fr.remove(best as int)[k] == fr[k]);
                } else {
                    assert(fr.remove(best as int)[k] == fr[k + 1]);
                }
            }
            assert forall|x: int, y: int| self.in_bounds(x, y) implies #[trigger] self.cell_ok(
                x,
                y,
            ) by {
                assert(old(self).cell_ok(x, y));
            }
            match self.curr_node {
                Some(n) => {
                    assert(old(self).node_ok(n));
                    assert(self.node_ok(n));
                },
                None => {},
            }
        }
        Some(popped)
    }

    /// Would expanding `curr` strictly improve the record of the cell at
    /// `(tx, ty)`? True exactly when that cell exists, is passable, and the
    /// tentative cost through `curr` beats the cost recorded so far (the
    /// relaxation guard).
    pub closed spec fn improves(self, curr: AStarNode, tx: int, ty: int) -> bool {
        &&& self.in_bounds(tx, ty)
        &&& !self.wall_at(tx, ty)
        &&& curr.g_cost + move_cost(curr.pos, grid_pos(tx, ty)) < self.g_at(tx, ty)
    }

    /// The frontier entry pushed when that improvement happens.
    pub closed spec fn improved_node(self, curr: AStarNode, tx: int, ty: int) -> AStarNode {
        AStarNode {
            pos: grid_pos(tx, ty),
            g_cost: (curr.g_cost + move_cost(curr.pos, grid_pos(tx, ty))) as i32,
            h_cost: self.cell_at(tx, ty).h_cost,
            prev_pos: Some(curr.pos),
        }
    }

    /// Everything one neighbor relaxation does, relating the engine before
    /// (`self`) and after (`post`): if the neighbor of `n` at offset
    /// `(dx, dy)` exists, is passable, and is reached more cheaply through
    /// `n` than ever before, its record is rewritten (new cost, predecessor
    /// `n.pos`) and a fresh frontier entry for it is pushed; otherwise the
    /// engine is untouched.
    pub closed spec fn relax_post(self, post: AStar, n: AStarNode, dx: int, dy: int) -> bool {
        let tx = n.pos.x as int + dx;
        let ty = n.pos.y as int + dy;
        if self.improves(n, tx, ty) {
            &&& post.rows == self.rows
            &&& post.cols == self.cols
            &&& post.end_pos == self.end_pos
            &&& post.walls == self.walls
            &&& post.start_pos == self.start_pos
            &&& post.curr_node == self.curr_node
            &&& post.state@ == self.state@.update(
                idx_at(tx, ty, self.cols as int),
                AStarNode {
                    g_cost: self.improved_node(n, tx, ty).g_cost,
                    prev_pos: Some(n.pos),
                    ..self.cell_at(tx, ty)
                },
            )
            &&& post.frontier@ == self.frontier@.push(self.improved_node(n, tx, ty))
        } else {
            post == self
        }
    }

    /// Was the cell `(x, y)` relaxed by the expansion of `n`: is it an
    /// 8-connected neighbor of `n` whose record the expansion improved?
    pub closed spec fn relaxed_by(self, n: AStarNode, x: int, y: int) -> bool {
        adjacent(n.pos, grid_pos(x, y)) && self.improves(n, x, y)
    }

    /// The (zero or one) frontier entries that relaxing the neighbor at
    /// offset `(dx, dy)` of `n` produces.
    pub closed spec fn push_at(self, n: AStarNode, dx: int, dy: int) -> Seq<AStarNode> {
        let tx = n.pos.x as int + dx;
        let ty = n.pos.y as int + dy;
        if self.improves(n, tx, ty) {
            seq![self.improved_node(n, tx, ty)]
        } else {
            Seq::empty()
        }
    }

    /// All frontier entries that expanding `n` pushes, in the fixed
    /// neighbor order the engine visits: `dx` from -1 to 1, and within it
    /// `dy` from -1 to 1, skipping the zero offset.
    pub closed spec fn pushes(self, n: AStarNode) -> Seq<AStarNode> {
        self.push_at(n, -1, -1) + self.push_at(n, -1, 0) + self.push_at(n, -1, 1) + self.push_at(
            n,
            0,
            -1,
        ) + self.push_at(n, 0, 1) + self.push_at(n, 1, -1) + self.push_at(n, 1, 0) + self.push_at(
            n,
            1,
            1,
        )
    }

    /// Relaxation of one neighbor of the freshly expanded node `curr`,
    /// offset by `(dx, dy)`: if the neighbor exists, is passable, and is
    /// reached more cheaply through `curr` than ever before, its record is
    /// updated (new cost, predecessor `curr.pos`) and a fresh entry for it
    /// joins the frontier; otherwise nothing changes at all.
    #[verifier::rlimit(100)]
    #[verifier::spinoff_prover]
    fn relax_neighbor(&mut self, curr: &AStarNode, dx: i32, dy: i32)
        requires
            old(self).inv(),
            old(self).in_bounds(curr.pos.x as int, curr.pos.y as int),
            -1 <= dx <= 1,
            -1 <= dy <= 1,
            !(dx == 0 && dy == 0),
            0 <= curr.g_cost,
            curr.g_cost as int <= 14 * (old(self).vcount() - 1),
            old(self).visited_at(curr.pos.x as int, curr.pos.y as int),
            old(self).g_at(curr.pos.x as int, curr.pos.y as int) <= curr.g_cost as int,
        ensures
            final(self).inv(),
            final(self).rows == old(self).rows,
            final(self).cols == old(self).cols,
            final(self).end_pos == old(self).end_pos,
            final(self).walls == old(self).walls,
            final(self).start_pos == old(self).start_pos,
            final(self).curr_node == old(self).curr_node,
            old(self).vcount() <= final(self).vcount(),
            final(self).vcount() <= old(self).vcount() + 1,
            final(self).g_at(curr.pos.x as int, curr.pos.y as int) <= curr.g_cost as int,
            final(self).visited_at(curr.pos.x as int, curr.pos.y as int),
            old(self).relax_post(*final(self), *curr, dx as int, dy as int),
            final(self).search_measure() <= old(self).search_measure(),
    {
        proof {
            lemma_dims_le(self.rows as int, self.cols as int, MAX_CELLS as int);
        }
        let x = curr.pos.x as i32 + dx;
        let y = curr.pos.y as i32 + dy;

        if x < 0 || y < 0 || x >= self.cols || y >= self.rows {
            return ;
        }
        let xu = x as usize;
        let yu = y as usize;
        if self.walls[yu][xu] {
            return ;
        }
        let step_cost = if dx != 0 && dy != 0 {
            DIAGONAL_COST
        } else {
            STRAIGHT_COST
        };
        proof {
            lemma_count_bounds(self.state@);
            lemma_idx_bounds(xu as int, yu as int, self.rows as int, self.cols as int);
        }
        let g_new = curr.g_cost + step_cost;
        let idx = yu * (self.cols as usize) + xu;
        let mut node = self.state[idx];
        if g_new >= node.g_cost {
            return ;
        }
        node.g_cost = g_new;
        node.prev_pos = Some(curr.pos);
        self.state.set(idx, node);
        self.frontier.push(node);

        proof {
            let tx = xu as int;
            let ty = yu as int;
            let c = self.cols as int;
            let r = self.rows as int;
            let cx = curr.pos.x as int;
            let cy = curr.pos.y as int;
            let pre = *old(self);
            let target = grid_pos(tx, ty);
            let old_cell = pre.cell_at(tx, ty);
            let was_visited = old_cell.g_cost != i32::MAX;

            assert(move_cost(curr.pos, target) == step_cost as int);
            assert(!(tx == cx && ty == cy));
            assert(pre.cell_ok(tx, ty));
            assert(pre.improves(*curr, tx, ty));
            assert(node == pre.improved_node(*curr, tx, ty));
            assert(self.state@ == pre.state@.update(idx_at(tx, ty, c), node));
            assert(pre.relax_post(*self, *curr, dx as int, dy as int));

            lemma_count_update(pre.state@, ty * c + tx, node);
            lemma_g_sum_update(pre.state@, ty * c + tx, node);
            assert(self.search_measure() <= pre.search_measure());
            if was_visited {
                assert(self.vcount() == pre.vcount());
            } else {
                assert(self.vcount() == pre.vcount() + 1);
            }
            // The bound every finite cost must satisfy afterwards.
            assert(g_new as int <= 14 * (self.vcount() - 1));

            // Cells other than the target are untouched.
            assert forall|x2: int, y2: int|
                pre.in_bounds(x2, y2) && !(x2 == tx && y2 == ty) implies #[trigger] self.cell_at(
                x2,
                y2,
            ) == pre.cell_at(x2, y2) by {
                lemma_idx_bounds(x2, y2, r, c);
                lemma_idx_bounds(tx, ty, r, c);
                if y2 * c + x2 == ty * c + tx {
                    lemma_idx_inj(x2, y2, tx, ty, c);
                }
            }
            assert(self.cell_at(cx, cy) == pre.cell_at(cx, cy));
            if pre.start_pos@ == target {
                // The start cell is recorded at cost 0 and a relaxation can
                // never beat that, so the target is never the start.
                assert(false);
            }

            assert forall|x2: int, y2: int| self.in_bounds(x2, y2) implies #[trigger] self.cell_ok(
                x2,
                y2,
            ) by {
                assert(pre.cell_ok(x2, y2));
                let n2 = self.cell_at(x2, y2);
                if x2 == tx && y2 == ty {
                    assert(pre.cell_ok(cx, cy));
                    assert(adjacent(curr.pos, target));
                } else {
                    if n2.g_cost != i32::MAX {
                        match n2.prev_pos {
                            Some(p) => {
                                if p.x as int == tx && p.y as int == ty {
                                    assert(self.g_at(p.x as int, p.y as int) <= pre.g_at(
                                        p.x as int,
                                        p.y as int,
                                    ));
                                } else {
                                    assert(self.cell_at(p.x as int, p.y as int) == pre.cell_at(
                                        p.x as int,
                                        p.y as int,
                                    ));
                                }
                            },
                            None => {},
                        }
                    }
                }
            }

            assert forall|k: int| 0 <= k < self.frontier@.len() implies self.node_ok(
                #[trigger] self.frontier@[k],
            ) by {
                if k < pre.frontier@.len() {
                    assert(pre.node_ok(pre.frontier@[k]));
                    let n2 = pre.frontier@[k];
                    if n2.pos.x as int == tx && n2.pos.y as int == ty {
                        assert(self.g_at(tx, ty) <= pre.g_at(tx, ty));
                    } else {
                        assert(self.cell_at(n2.pos.x as int, n2.pos.y as int) == pre.cell_at(
                            n2.pos.x as int,
                            n2.pos.y as int,
                        ));
                    }
                } else {
                    assert(self.frontier@[k] == node);
                    assert(self.g_at(tx, ty) == g_new as int);
                }
            }

            match self.curr_node {
                Some(n2) => {
                    assert(pre.node_ok(n2));
                    if n2.pos.x as int == tx && n2.pos.y as int == ty {
                        assert(self.g_at(tx, ty) <= pre.g_at(tx, ty));
                    } else {
                        assert(self.cell_at(n2.pos.x as int, n2.pos.y as int) == pre.cell_at(
                            n2.pos.x as int,
                            n2.pos.y as int,
                        ));
                    }
                    assert(self.node_ok(n2));
                },
                None => {},
            }
        }
    }

    /// One full expansion, relating the engine state before (`self`) and
    /// after (`post`): the `k`-th frontier entry `n` was popped — it is
    /// minimal in the [`pops_before`] order over the whole frontier, and
    /// earliest among entries it is fully tied with — and became the current
    /// node. If `n` sits on the goal the expansion short-circuits and
    /// nothing else changes; otherwise every strictly improving neighbor's
    /// record was rewritten to go through `n` and a fresh entry for it was
    /// pushed (see [`AStar::pushes`]), while all other records are
    /// untouched.
    pub closed spec fn expanded(self, post: AStar, k: int) -> bool {
        let n = self.frontier@[k];
        &&& 0 <= k < self.frontier@.len()
        &&& (forall|j: int|
            0 <= j < self.frontier@.len() ==> !pops_before(#[trigger] self.frontier@[j], n))
        &&& (forall|j: int| 0 <= j < k ==> pops_before(n, #[trigger] self.frontier@[j]))
        &&& post.curr_node == Some(n)
        &&& if n.pos == self.end_pos {
            &&& post.frontier@ == self.frontier@.remove(k)
            &&& (forall|x: int, y: int|
                self.in_bounds(x, y) ==> #[trigger] post.cell_at(x, y) == self.cell_at(x, y))
        } else {
            &&& post.frontier@ == self.frontier@.remove(k) + self.pushes(n)
            &&& (forall|x: int, y: int|
                self.in_bounds(x, y) ==> #[trigger] post.cell_at(x, y) == (if self.relaxed_by(
                    n,
                    x,
                    y,
                ) {
                    AStarNode {
                        g_cost: self.improved_node(n, x, y).g_cost,
                        prev_pos: Some(n.pos),
                        ..self.cell_at(x, y)
                    }
                } else {
                    self.cell_at(x, y)
                }))
        }
    }

    /// Advances the search by exactly one frontier expansion.
    ///
    /// On an empty frontier it reports exhaustion: `None`, the current node
    /// is cleared, and nothing else changes. Otherwise the minimal frontier
    /// entry under [`pops_before`] is expanded as [`AStar::expanded`]
    /// describes and its position returned. Recorded costs never worsen.
    #[verifier::rlimit(100)]
    #[verifier::spinoff_prover]
    pub fn step(&mut self) -> (r: Option<Vector2<usize>>)
        requires
            old(self).inv(),
        ensures
            final(self).inv(),
            final(self).grid_rows() == old(self).grid_rows(),
            final(self).grid_cols() == old(self).grid_cols(),
            final(self).end() == old(self).end(),
            final(self).start() == old(self).start(),
            final(self).walls_view() == old(self).walls_view(),
            forall|x: int, y: int|
                final(self).in_bounds(x, y) ==> #[trigger] final(self).g_at(x, y) <= old(
                    self,
                ).g_at(x, y),
            forall|x: int, y: int|
                final(self).in_bounds(x, y) ==> #[trigger] final(self).h_at(x, y) == old(
                    self,
                ).h_at(x, y),
            (r is None <==> old(self).frontier_view().len() == 0),
            r is None ==> {
                &&& final(self).curr() is None
                &&& final(self).frontier_view().len() == 0
                &&& (forall|x: int, y: int|
                    final(self).in_bounds(x, y) ==> #[trigger] final(self).cell_at(x, y) == old(
                        self,
                    ).cell_at(x, y))
            },
            r is Some ==> final(self).search_measure() < old(self).search_measure(),
            r matches Some(p) ==> exists|k: int|
                #[trigger] old(self).expanded(*final(self), k) && p == old(
                    self,
                ).frontier_view()[k].pos,
            old(self).covered() && r is None ==> final(self).covered(),
            old(self).covered() && (r matches Some(p) && p != old(self).end())
                ==> final(self).covered(),
            old(self).covered() && (r matches Some(p) && p == old(self).end())
                ==> forall|q: Seq<Vector2<usize>>|
                (#[trigger] old(self).is_walk(q)) && q[0] == old(self).start() && q[q.len() - 1]
                    == old(self).end() ==> final(self).g_at(
                    old(self).end().x as int,
                    old(self).end().y as int,
                ) <= path_cost(q),
    {
        let popped = self.pop_best();
        let curr_node = match popped {
            Some(n) => n,
            None => {
                let ghost s_pop = *self;
                self.curr_node = None;
                proof {
                    assert forall|x: int, y: int| self.in_bounds(x, y) implies #[trigger] self
                        .cell_ok(x, y) by {
                        assert(s_pop.cell_ok(x, y));
                    }
                    if old(self).covered() {
                        assert forall|q: Seq<Vector2<usize>>|
                            {
                                let w = q[0];
                                let z = q[q.len() - 1];
                                (#[trigger] self.is_walk(q)) && self.visited_at(
                                    w.x as int,
                                    w.y as int,
                                ) && self.g_at(z.x as int, z.y as int) > self.g_at(
                                    w.x as int,
                                    w.y as int,
                                ) + path_cost(q)
                            } implies self.covers(q) by {
                            assert(old(self).is_walk(q));
                            assert(old(self).covers(q));
                            let (i, j) = choose|i: int, j: int|
                                #![trigger q[i], old(self).frontier@[j]]
                                {
                                    &&& 0 <= i < q.len()
                                    &&& 0 <= j < old(self).frontier@.len()
                                    &&& old(self).frontier@[j].pos == q[i]
                                    &&& old(self).frontier@[j].g_cost <= old(self).g_at(
                                        q[0].x as int,
                                        q[0].y as int,
                                    ) + path_cost(q.take(i + 1))
                                };
                            assert(self.frontier@[j] == old(self).frontier@[j]);
                            assert(self.frontier@[j].pos == q[i]);
                        }
                    }
                }
                return None;
            },
        };
        let ghost s_pop = *self;
        let ghost pre = *old(self);
        let ghost k = choose|k: int|
            {
                &&& 0 <= k < pre.frontier@.len()
                &&& curr_node == pre.frontier@[k]
                &&& s_pop.frontier@ == pre.frontier@.remove(k)
                &&& forall|j: int| 0 <= j < k ==> pops_before(curr_node, #[trigger] pre.frontier@[j])
            };

        self.curr_node = Some(curr_node);
        proof {
            assert forall|x: int, y: int| self.in_bounds(x, y) implies #[trigger] self.cell_ok(
                x,
                y,
            ) by {
                assert(s_pop.cell_ok(x, y));
            }
            assert forall|j: int| 0 <= j < self.frontier@.len() implies self.node_ok(
                #[trigger] self.frontier@[j],
            ) by {
                assert(s_pop.node_ok(s_pop.frontier@[j]));
            }
            assert(pre.node_ok(curr_node));
            assert(self.node_ok(curr_node));
        }

        if curr_node.pos == self.end_pos {
            proof {
                assert(pre.expanded(*self, k));
                if pre.covered() {
                    assert forall|q: Seq<Vector2<usize>>|
                        (#[trigger] pre.is_walk(q)) && q[0] == pre.start() && q[q.len() - 1]
                            == pre.end() implies self.g_at(
                        pre.end().x as int,
                        pre.end().y as int,
                    ) <= path_cost(q) by {
                        pre.lemma_goal_optimal(*self, k, q);
                        assert(pre.in_bounds(pre.end().x as int, pre.end().y as int));
                        assert(self.cell_at(pre.end().x as int, pre.end().y as int)
                            == pre.cell_at(pre.end().x as int, pre.end().y as int));
                    }
                }
            }
            return Some(self.end_pos);
        }

        let ghost s0 = *self;
        self.relax_neighbor(&curr_node, -1, -1);
        let ghost s1 = *self;
        self.relax_neighbor(&curr_node, -1, 0);
        let ghost s2 = *self;
        self.relax_neighbor(&curr_node, -1, 1);
        let ghost s3 = *self;
        self.relax_neighbor(&curr_node, 0, -1);
        let ghost s4 = *self;
        self.relax_neighbor(&curr_node, 0, 1);
        let ghost s5 = *self;
        self.relax_neighbor(&curr_node, 1, -1);
        let ghost s6 = *self;
        self.relax_neighbor(&curr_node, 1, 0);
        let ghost s7 = *self;
        self.relax_neighbor(&curr_node, 1, 1);

        proof {
            let n = curr_node;
            lemma_relax_chain_cells(pre, s0, s1, s2, s3, s4, s5, s6, s7, *self, n);
            lemma_relax_chain_frontier(pre, s0, s1, s2, s3, s4, s5, s6, s7, *self, n);
            assert(s0.frontier@ == pre.frontier@.remove(k));
            assert(self.frontier@ == pre.frontier@.remove(k) + pre.pushes(n));
            assert forall|x: int, y: int| self.in_bounds(x, y) implies #[trigger] self.g_at(x, y)
                <= pre.g_at(x, y) && self.h_at(x, y) == pre.h_at(x, y) by {
                assert(pre.in_bounds(x, y));
                if pre.relaxed_by(n, x, y) {
                    assert(pre.improves(n, x, y));
                }
            }
            assert(pre.expanded(*self, k));
            if pre.covered() {
                assert forall|q: Seq<Vector2<usize>>|
                    {
                        let w = q[0];
                        let z = q[q.len() - 1];
                        (#[trigger] self.is_walk(q)) && self.visited_at(w.x as int, w.y as int)
                            && self.g_at(z.x as int, z.y as int) > self.g_at(
                            w.x as int,
                            w.y as int,
                        ) + path_cost(q)
                    } implies self.covers(q) by {
                    pre.lemma_step_covers(*self, k, q);
                }
            }
        }

        Some(curr_node.pos)
    }

    /// If exactly one index of the table is finite, the visited count is 1.
    proof fn lemma_count_single(self, sidx: int)
        requires
            0 <= sidx < self.state@.len(),
            self.state@[sidx].g_cost != i32::MAX,
            forall|k: int|
                0 <= k < self.state@.len() && k != sidx ==> (#[trigger] self.state@[k]).g_cost
                    == i32::MAX,
        ensures
            self.vcount() == 1,
    {
        lemma_count_single_seq(self.state@, sidx);
    }
}

impl AStar {
    /// The positions currently queued for expansion, one per frontier
    /// entry, in the frontier's internal storage order (an unordered view
    /// of the priority structure).
    pub fn get_frontier(&self) -> (r: Vec<Vector2<usize>>)
        requires
            self.inv(),
        ensures
            r@.len() == self.frontier_view().len(),
            forall|i: int| 0 <= i < r@.len() ==> r@[i] == self.frontier_view()[i].pos,
    {
        let mut r: Vec<Vector2<usize>> = Vec::new();
        let mut i: usize = 0;
        while i < self.frontier.len()
            invariant
                i <= self.frontier@.len(),
                r@.len() == i,
                forall|j: int| 0 <= j < i ==> r@[j] == self.frontier@[j].pos,
            decreases self.frontier@.len() - i,
        {
            r.push(self.frontier[i].pos);
            i = i + 1;
        }
        r
    }

    /// The ordered sequence of positions from the current node back to the
    /// start, following the recorded predecessor links; empty before the
    /// first step and after exhaustion.
    pub fn get_path(&self) -> (r: Vec<Vector2<usize>>)
        requires
            self.inv(),
        ensures
            self.curr() is None ==> r@.len() == 0,
            self.curr() matches Some(n) ==> {
                &&& r@.len() >= 1
                &&& r@[0] == n.pos
                &&& r@[r@.len() - 1] == self.start()
                &&& (forall|i: int|
                    0 <= i < r@.len() ==> self.in_bounds(
                        (#[trigger] r@[i]).x as int,
                        r@[i].y as int,
                    ) && self.visited_at(r@[i].x as int, r@[i].y as int))
                &&& (forall|i: int|
                    0 <= i < r@.len() - 1 ==> self.pred_at(
                        (#[trigger] r@[i]).x as int,
                        r@[i].y as int,
                    ) == Some(r@[i + 1]))
                &&& self.pred_at(
                    r@[r@.len() - 1].x as int,
                    r@[r@.len() - 1].y as int,
                ) is None
            },
    {
        let mut curr_pos = match &self.curr_node {
            Some(node) => node.pos,
            None => {
                return Vec::new();
            },
        };

        let mut path: Vec<Vector2<usize>> = Vec::new();
        path.push(curr_pos);

        loop
            invariant_except_break
                self.inv(),
                path@.len() >= 1,
                path@[path@.len() - 1] == curr_pos,
                self.curr() matches Some(n) && path@[0] == n.pos,
                self.in_bounds(curr_pos.x as int, curr_pos.y as int),
                self.visited_at(curr_pos.x as int, curr_pos.y as int),
                forall|i: int|
                    0 <= i < path@.len() ==> self.in_bounds(
                        (#[trigger] path@[i]).x as int,
                        path@[i].y as int,
                    ) && self.visited_at(path@[i].x as int, path@[i].y as int),
                forall|i: int|
                    0 <= i < path@.len() - 1 ==> self.pred_at(
                        (#[trigger] path@[i]).x as int,
                        path@[i].y as int,
                    ) == Some(path@[i + 1]),
            ensures
                path@.len() >= 1,
                path@[path@.len() - 1] == curr_pos,
                self.curr() matches Some(n) && path@[0] == n.pos,
                self.in_bounds(curr_pos.x as int, curr_pos.y as int),
                self.visited_at(curr_pos.x as int, curr_pos.y as int),
                self.pred_at(curr_pos.x as int, curr_pos.y as int) is None,
                forall|i: int|
                    0 <= i < path@.len() ==> self.in_bounds(
                        (#[trigger] path@[i]).x as int,
                        path@[i].y as int,
                    ) && self.visited_at(path@[i].x as int, path@[i].y as int),
                forall|i: int|
                    0 <= i < path@.len() - 1 ==> self.pred_at(
                        (#[trigger] path@[i]).x as int,
                        path@[i].y as int,
                    ) == Some(path@[i + 1]),
            decreases self.g_at(curr_pos.x as int, curr_pos.y as int),
        {
            proof {
                assert(self.cell_ok(curr_pos.x as int, curr_pos.y as int));
                lemma_idx_bounds(
                    curr_pos.x as int,
                    curr_pos.y as int,
                    self.rows as int,
                    self.cols as int,
                );
            }
            let i = curr_pos.y * (self.cols as usize) + curr_pos.x;
            match self.state[i].prev_pos {
                Some(pos) => {
                    proof {
                        assert(self.cell_ok(pos.x as int, pos.y as int));
                    }
                    curr_pos = pos;
                    path.push(curr_pos);
                },
                None => {
                    break ;
                },
            }
        }

        proof {
            assert(self.cell_ok(curr_pos.x as int, curr_pos.y as int));
        }
        path
    }

    /// For every cell, whether it has been reached at least once (its
    /// recorded cost is finite).
    pub fn get_visited(&self) -> (r: Vec<Vec<bool>>)
        requires
            self.inv(),
        ensures
            r@.len() == self.grid_rows(),
            forall|i: int| 0 <= i < r@.len() ==> (#[trigger] r@[i])@.len() == self.grid_cols(),
            forall|x: int, y: int|
                self.in_bounds(x, y) ==> #[trigger] r@[y]@[x] == self.visited_at(x, y),
    {
        let mut r: Vec<Vec<bool>> = Vec::new();
        let mut y: usize = 0;
        while y < self.rows as usize
            invariant
                self.inv(),
                y <= self.rows as int,
                r@.len() == y,
                forall|i: int| 0 <= i < y ==> (#[trigger] r@[i])@.len() == self.grid_cols(),
                forall|x2: int, y2: int|
                    0 <= y2 < y && self.in_bounds(x2, y2) ==> #[trigger] r@[y2]@[x2]
                        == self.visited_at(x2, y2),
            decreases self.rows as int - y,
        {
            let mut row: Vec<bool> = Vec::new();
            let mut x: usize = 0;
            while x < self.cols as usize
                invariant
                    self.inv(),
                    y < self.rows as int,
                    x <= self.cols as int,
                    row@.len() == x,
                    forall|x2: int| 0 <= x2 < x ==> #[trigger] row@[x2] == self.visited_at(
                        x2,
                        y as int,
                    ),
                decreases self.cols as int - x,
            {
                proof {
                    lemma_idx_bounds(x as int, y as int, self.rows as int, self.cols as int);
                }
                let i = y * (self.cols as usize) + x;
                row.push(self.state[i].g_cost != i32::MAX);
                x = x + 1;
            }
            r.push(row);
            y = y + 1;
        }
        r
    }

    /// For every cell, its debug token (recorded cost and heuristic,
    /// bar-separated), or `None` if it was never reached. Diagnostic only.
    pub fn get_state(&self) -> (r: Vec<Vec<Option<String>>>)
        requires
            self.inv(),
        ensures
            r@.len() == self.grid_rows(),
            forall|i: int| 0 <= i < r@.len() ==> (#[trigger] r@[i])@.len() == self.grid_cols(),
            forall|x: int, y: int|
                self.in_bounds(x, y) ==> {
                    &&& (#[trigger] r@[y]@[x] is None <==> !self.visited_at(x, y))
                    &&& (r@[y]@[x] matches Some(s) ==> s@ == state_token(
                        self.g_at(x, y),
                        self.h_at(x, y),
                    ))
                },
    {
        let mut r: Vec<Vec<Option<String>>> = Vec::new();
        let mut y: usize = 0;
        while y < self.rows as usize
            invariant
                self.inv(),
                y <= self.rows as int,
                r@.len() == y,
                forall|i: int| 0 <= i < y ==> (#[trigger] r@[i])@.len() == self.grid_cols(),
                forall|x2: int, y2: int|
                    0 <= y2 < y && self.in_bounds(x2, y2) ==> {
                        &&& (#[trigger] r@[y2]@[x2] is None <==> !self.visited_at(x2, y2))
                        &&& (r@[y2]@[x2] matches Some(s) ==> s@ == state_token(
                            self.g_at(x2, y2),
                            self.h_at(x2, y2),
                        ))
                    },
            decreases self.rows as int - y,
        {
            let mut row: Vec<Option<String>> = Vec::new();
            let mut x: usize = 0;
            while x < self.cols as usize
                invariant
                    self.inv(),
                    y < self.rows as int,
                    x <= self.cols as int,
                    row@.len() == x,
                    forall|x2: int|
                        0 <= x2 < x ==> {
                            &&& (#[trigger] row@[x2] is None <==> !self.visited_at(x2, y as int))
                            &&& (row@[x2] matches Some(s) ==> s@ == state_token(
                                self.g_at(x2, y as int),
                                self.h_at(x2, y as int),
                            ))
                        },
                decreases self.cols as int - x,
            {
                proof {
                    lemma_idx_bounds(x as int, y as int, self.rows as int, self.cols as int);
                    assert(self.cell_ok(x as int, y as int));
                    lemma_octile_range(grid_pos(x as int, y as int), self.end_pos);
                }
                let i = y * (self.cols as usize) + x;
                let cell = self.state[i];
                if cell.g_cost == i32::MAX {
                    row.push(None);
                } else {
                    row.push(Some(cost_token(cell.g_cost, cell.h_cost)));
                }
                x = x + 1;
            }
            r.push(row);
            y = y + 1;
        }
        r
    }

    /// Releases all search-scoped state; safe to call repeatedly. The
    /// engine is left as `Default` builds it.
    pub fn deinit(&mut self)
        ensures
            final(self).inv(),
            final(self).grid_rows() == 0,
            final(self).grid_cols() == 0,
            final(self).frontier_view().len() == 0,
            final(self).curr() is None,
            final(self).walls_view().len() == 0,
    {
        self.frontier.clear();
        self.curr_node = None;
        self.state.clear();

        self.rows = 0;
        self.cols = 0;
        self.end_pos = Vector2 { x: 0, y: 0 };
        self.walls = Vec::new();
        self.start_pos = Ghost(Vector2 { x: 0, y: 0 });
    }
}

/// The total cost of a walk across the grid: the sum of its step costs.
pub open spec fn path_cost(p: Seq<Vector2<usize>>) -> int
    decreases p.len(),
{
    if p.len() <= 1 {
        0
    } else {
        move_cost(p[0], p[1]) + path_cost(p.drop_first())
    }
}

/// Appending one more step to a walk adds exactly that step's cost.
proof fn lemma_path_cost_push(p: Seq<Vector2<usize>>, q: Vector2<usize>)
    requires
        p.len() >= 1,
    ensures
        path_cost(p.push(q)) == path_cost(p) + move_cost(p[p.len() - 1], q),
    decreases p.len(),
{
    if p.len() == 1 {
        assert(p.push(q).drop_first() =~= seq![q]);
        assert(path_cost(seq![q]) == 0);
        assert(path_cost(p.push(q)) == move_cost(p[0], q) + path_cost(seq![q]));
    } else {
        assert(p.push(q).drop_first() =~= p.drop_first().push(q));
        lemma_path_cost_push(p.drop_first(), q);
        assert(p.drop_first()[p.drop_first().len() - 1] == p[p.len() - 1]);
        assert(path_cost(p.push(q)) == move_cost(p[0], p[1]) + path_cost(p.drop_first().push(q)));
        assert(path_cost(p) == move_cost(p[0], p[1]) + path_cost(p.drop_first()));
    }
}

/// The octile heuristic is admissible and consistent for the engine's cost
/// model: it vanishes at the goal, never goes negative, and one step to an
/// adjacent cell can never lower the estimated total cost — the triangle
/// inequality `octile(p, goal) <= move_cost(p, q) + octile(q, goal)`.
/// These are the properties that entitle a best-first search using it to
/// stop at the first expansion of the goal.
pub proof fn lemma_heuristic_consistent(p: Vector2<usize>, q: Vector2<usize>, goal: Vector2<usize>)
    requires
        adjacent(p, q),
    ensures
        octile(goal, goal) == 0,
        octile(p, goal) >= 0,
        octile(p, goal) <= move_cost(p, q) + octile(q, goal),
{
}

/// The octile heuristic is a true lower bound: no sequence of 8-connected
/// steps from `a` to the goal can cost less than `octile(a, goal)` — in
/// particular, the heuristic never overestimates the cost of a shortest
/// path, which is what A*'s optimality rests on.
pub proof fn lemma_heuristic_admissible(q: Seq<Vector2<usize>>, goal: Vector2<usize>)
    requires
        q.len() >= 1,
        q[q.len() - 1] == goal,
        forall|i: int| #![trigger q[i], q[i + 1]] 0 <= i < q.len() - 1 ==> adjacent(q[i], q[i + 1]),
    ensures
        octile(q[0], goal) <= path_cost(q),
    decreases q.len(),
{
    if q.len() == 1 {
    } else {
        let t = q.drop_first();
        assert forall|i: int| #![trigger t[i], t[i + 1]] 0 <= i < t.len() - 1 implies adjacent(
            t[i],
            t[i + 1],
        ) by {
            assert(t[i] == q[i + 1]);
            assert(t[i + 1] == q[i + 2]);
        }
        assert(t[t.len() - 1] == goal);
        lemma_heuristic_admissible(t, goal);
        assert(adjacent(q[0], q[1]));
        lemma_heuristic_consistent(q[0], q[1], goal);
        assert(path_cost(q) == move_cost(q[0], q[1]) + path_cost(t));
    }
}

impl AStar {
    /// A walk across the grid: at least one cell, every cell in bounds and
    /// passable, and consecutive cells 8-connected neighbors.
    pub closed spec fn is_walk(self, q: Seq<Vector2<usize>>) -> bool {
        &&& q.len() >= 1
        &&& (forall|i: int|
            0 <= i < q.len() ==> self.in_bounds((#[trigger] q[i]).x as int, q[i].y as int)
                && !self.wall_at(q[i].x as int, q[i].y as int))
        &&& (forall|i: int| #![trigger q[i], q[i + 1]] 0 <= i < q.len() - 1 ==> adjacent(q[i], q[i + 1]))
    }

    /// A walk across the grid from `a` to `b`.
    pub closed spec fn is_grid_path(
        self,
        p: Seq<Vector2<usize>>,
        a: Vector2<usize>,
        b: Vector2<usize>,
    ) -> bool {
        &&& self.is_walk(p)
        &&& p[0] == a
        &&& p[p.len() - 1] == b
    }

    /// Does the frontier still cover the walk `q`: some queued entry sits
    /// on a cell of `q`, and its cost is within the record of `q`'s first
    /// cell plus the cost of the walk up to that entry's cell.
    pub closed spec fn covers(self, q: Seq<Vector2<usize>>) -> bool {
        exists|i: int, j: int|
            #![trigger q[i], self.frontier@[j]]
            {
                &&& 0 <= i < q.len()
                &&& 0 <= j < self.frontier@.len()
                &&& self.frontier@[j].pos == q[i]
                &&& self.frontier@[j].g_cost <= self.g_at(q[0].x as int, q[0].y as int)
                    + path_cost(q.take(i + 1))
            }
    }

    /// Between expansions the frontier covers every useful walk: whenever
    /// following a walk from an already-reached cell would beat the cost
    /// recorded for its endpoint, some frontier entry lies on that walk
    /// within the walk's own budget. This is the working half of A*'s
    /// optimality argument; at the moment the goal is first expanded it
    /// turns the pop-order minimality and the heuristic's consistency into
    /// the optimality of the recorded cost (see `step`'s contract).
    pub closed spec fn covered(self) -> bool {
        forall|q: Seq<Vector2<usize>>|
            {
                let w = q[0];
                let z = q[q.len() - 1];
                (#[trigger] self.is_walk(q)) && self.visited_at(w.x as int, w.y as int)
                    && self.g_at(z.x as int, z.y as int) > self.g_at(w.x as int, w.y as int)
                    + path_cost(q) ==> self.covers(q)
            }
    }
}

impl AStar {
    /// One non-goal expansion keeps every useful walk covered: either the
    /// old witness survived the pop, or the expansion pushed a fresh entry
    /// one cell further along the walk, still within the walk's budget.
    #[verifier::rlimit(100)]
    #[verifier::spinoff_prover]
    proof fn lemma_step_covers(self, post: AStar, k: int, q: Seq<Vector2<usize>>)
        requires
            self.inv(),
            self.covered(),
            self.expanded(post, k),
            self.frontier@[k].pos != self.end_pos,
            post.rows == self.rows,
            post.cols == self.cols,
            post.walls == self.walls,
            post.end_pos == self.end_pos,
            post.is_walk(q),
            post.visited_at(q[0].x as int, q[0].y as int),
            post.g_at(q[q.len() - 1].x as int, q[q.len() - 1].y as int) > post.g_at(
                q[0].x as int,
                q[0].y as int,
            ) + path_cost(q),
        ensures
            post.covers(q),
        decreases q.len(),
    {
        let n = self.frontier@[k];
        let w = q[0];
        let z = q[q.len() - 1];
        let wx = w.x as int;
        let wy = w.y as int;
        let zx = z.x as int;
        let zy = z.y as int;
        assert(self.node_ok(n));
        assert(self.is_walk(q));
        assert(self.in_bounds(wx, wy) && self.in_bounds(zx, zy));
        assert(grid_pos(wx, wy) == w && grid_pos(zx, zy) == z);

        if self.relaxed_by(n, wx, wy) {
            // The walk's first cell was itself just relaxed: the fresh
            // entry pushed for it covers the walk at its very start.
            let e = self.improved_node(n, wx, wy);
            lemma_pushes_contains(self, n, wx, wy);
            let m = choose|m: int|
                0 <= m < self.pushes(n).len() && #[trigger] self.pushes(n)[m] == e;
            let j = self.frontier@.remove(k).len() + m;
            assert(post.frontier@ == self.frontier@.remove(k) + self.pushes(n));
            assert(post.frontier@[j] == e);
            assert(post.cell_at(wx, wy) == AStarNode {
                g_cost: e.g_cost,
                prev_pos: Some(n.pos),
                ..self.cell_at(wx, wy)
            });
            assert(q.take(1).len() == 1);
            assert(path_cost(q.take(1)) == 0);
            assert(post.frontier@[j].pos == q[0]);
            assert(post.frontier@[j].g_cost <= post.g_at(q[0].x as int, q[0].y as int)
                + path_cost(q.take(1)));
        } else {
            // The first cell's record is unchanged, so the old state
            // already had to cover this walk.
            assert(post.cell_at(wx, wy) == self.cell_at(wx, wy));
            if self.relaxed_by(n, zx, zy) {
                assert(self.improves(n, zx, zy));
                assert(post.g_at(zx, zy) <= self.g_at(zx, zy));
            } else {
                assert(post.cell_at(zx, zy) == self.cell_at(zx, zy));
            }
            assert(self.g_at(zx, zy) > self.g_at(wx, wy) + path_cost(q));
            assert(self.covers(q));
            let (i, j) = choose|i: int, j: int|
                #![trigger q[i], self.frontier@[j]]
                {
                    &&& 0 <= i < q.len()
                    &&& 0 <= j < self.frontier@.len()
                    &&& self.frontier@[j].pos == q[i]
                    &&& self.frontier@[j].g_cost <= self.g_at(q[0].x as int, q[0].y as int)
                        + path_cost(q.take(i + 1))
                };
            if j != k {
                // The witness survived the pop; find it again.
                let j2: int = if j < k {
                    j
                } else {
                    j - 1
                };
                assert(self.frontier@.remove(k)[j2] == self.frontier@[j]);
                assert(post.frontier@[j2] == self.frontier@[j]);
                assert(post.frontier@[j2].pos == q[i]);
                assert(post.frontier@[j2].g_cost <= post.g_at(q[0].x as int, q[0].y as int)
                    + path_cost(q.take(i + 1)));
            } else {
                // The witness was the entry just expanded.
                assert(n.pos == q[i]);
                assert(n.g_cost <= self.g_at(wx, wy) + path_cost(q.take(i + 1)));
                lemma_path_cost_split(q, i);
                lemma_path_cost_nonneg(q.subrange(i, q.len() as int));
                if i == q.len() - 1 {
                    // Then the endpoint's record already meets the budget —
                    // contradicting the walk's usefulness.
                    assert(z == n.pos);
                    assert(!self.relaxed_by(n, zx, zy));
                    assert(post.g_at(zx, zy) == self.g_at(zx, zy));
                    assert(self.g_at(zx, zy) <= n.g_cost);
                    assert(path_cost(q.take(i + 1)) <= path_cost(q)) by {
                        assert(q.take(i + 1) =~= q);
                    }
                    assert(false);
                } else {
                    // The expansion drove the walk one cell further.
                    let w2 = q[i + 1];
                    let w2x = w2.x as int;
                    let w2y = w2.y as int;
                    assert(adjacent(q[i], q[i + 1]));
                    assert(self.in_bounds(w2x, w2y) && !self.wall_at(w2x, w2y));
                    assert(grid_pos(w2x, w2y) == w2);
                    let mc = move_cost(n.pos, w2);
                    if self.improves(n, w2x, w2y) {
                        assert(self.relaxed_by(n, w2x, w2y));
                        assert(post.g_at(w2x, w2y) == n.g_cost + mc);
                    } else {
                        assert(self.g_at(w2x, w2y) <= n.g_cost + mc);
                        assert(!self.relaxed_by(n, w2x, w2y));
                        assert(post.g_at(w2x, w2y) == self.g_at(w2x, w2y));
                    }
                    assert(post.g_at(w2x, w2y) <= n.g_cost + mc);
                    // The new cost is finite.
                    lemma_count_bounds(self.state@);
                    assert(n.g_cost + mc < i32::MAX);
                    assert(post.visited_at(w2x, w2y));

                    let q2 = q.subrange(i + 1, q.len() as int);
                    assert(q2.len() == q.len() - (i + 1));
                    assert forall|i2: int|
                        0 <= i2 < q2.len() implies post.in_bounds(
                        (#[trigger] q2[i2]).x as int,
                        q2[i2].y as int,
                    ) && !post.wall_at(q2[i2].x as int, q2[i2].y as int) by {
                        assert(q2[i2] == q[i + 1 + i2]);
                    }
                    assert forall|i2: int| #![trigger q2[i2], q2[i2 + 1]]
                        0 <= i2 < q2.len() - 1 implies adjacent(q2[i2], q2[i2 + 1]) by {
                        assert(q2[i2] == q[i + 1 + i2]);
                        assert(q2[i2 + 1] == q[i + 1 + i2 + 1]);
                    }
                    assert(post.is_walk(q2));
                    assert(q2[0] == w2 && q2[q2.len() - 1] == z);

                    // The shorter walk is still useful, so recursion covers
                    // it.
                    lemma_path_cost_take_step(q, i + 1);
                    assert(path_cost(q) == path_cost(q.take(i + 1)) + move_cost(q[i], q[i + 1])
                        + path_cost(q2)) by {
                        assert(q.subrange(i, q.len() as int).drop_first() =~= q2);
                        assert(path_cost(q.subrange(i, q.len() as int)) == move_cost(q[i], q[i + 1])
                            + path_cost(q2)) by {
                            assert(q.subrange(i, q.len() as int)[0] == q[i]);
                            assert(q.subrange(i, q.len() as int)[1] == q[i + 1]);
                        }
                    }
                    assert(post.g_at(zx, zy) > post.g_at(w2x, w2y) + path_cost(q2));
                    self.lemma_step_covers(post, k, q2);
                    assert(post.covers(q2));
                    let (i2, j2) = choose|i2: int, j2: int|
                        #![trigger q2[i2], post.frontier@[j2]]
                        {
                            &&& 0 <= i2 < q2.len()
                            &&& 0 <= j2 < post.frontier@.len()
                            &&& post.frontier@[j2].pos == q2[i2]
                            &&& post.frontier@[j2].g_cost <= post.g_at(
                                q2[0].x as int,
                                q2[0].y as int,
                            ) + path_cost(q2.take(i2 + 1))
                        };
                    // Lift the witness back to the original walk.
                    assert(q2[i2] == q[i + 1 + i2]);
                    lemma_path_cost_split(q.take(i + i2 + 2), i + 1);
                    assert(q.take(i + i2 + 2).take(i + 2) =~= q.take(i + 2));
                    assert(q.take(i + i2 + 2).subrange(i + 1, i + i2 + 2) =~= q2.take(i2 + 1));
                    lemma_path_cost_take_step(q, i + 1);
                    assert(path_cost(q.take(i + i2 + 2)) == path_cost(q.take(i + 1)) + move_cost(
                        q[i],
                        q[i + 1],
                    ) + path_cost(q2.take(i2 + 1)));
                    assert(post.frontier@[j2].g_cost <= post.g_at(q[0].x as int, q[0].y as int)
                        + path_cost(q.take(i + 1 + i2 + 1)));
                    assert(post.frontier@[j2].pos == q[i + 1 + i2]);
                }
            }
        }
    }
}

impl AStar {
    /// Optimality of the reported path, in one statement. Suppose the goal
    /// has just been reported (it is the current node), `r` is the
    /// predecessor chain exactly as `get_path`'s contract describes it, and
    /// every walk from the start to the goal costs at least the goal's
    /// recorded cost — which is what `step` guarantees at the moment it
    /// pops the goal out of a covered search (see `step` and
    /// [`AStar::lemma_goal_optimal`]). Then the reconstructed path's total
    /// cost equals the goal's recorded cost, and no walk from the start to
    /// the goal is cheaper: the engine found a shortest path.
    pub proof fn lemma_reported_path_optimal(self, r: Seq<Vector2<usize>>)
        requires
            self.inv(),
            self.curr() matches Some(n) && n.pos == self.end(),
            r.len() >= 1,
            r[0] == self.end(),
            forall|i: int|
                0 <= i < r.len() ==> self.in_bounds((#[trigger] r[i]).x as int, r[i].y as int)
                    && self.visited_at(r[i].x as int, r[i].y as int),
            forall|i: int|
                #![trigger r[i], r[i + 1]]
                0 <= i < r.len() - 1 ==> self.pred_at(r[i].x as int, r[i].y as int) == Some(
                    r[i + 1],
                ),
            self.pred_at(r[r.len() - 1].x as int, r[r.len() - 1].y as int) is None,
            forall|q: Seq<Vector2<usize>>|
                (#[trigger] self.is_walk(q)) && q[0] == self.start() && q[q.len() - 1]
                    == self.end() ==> self.g_at(self.end().x as int, self.end().y as int)
                    <= path_cost(q),
        ensures
            path_cost(r) == self.g_at(self.end().x as int, self.end().y as int),
            forall|q: Seq<Vector2<usize>>|
                (#[trigger] self.is_walk(q)) && q[0] == self.start() && q[q.len() - 1]
                    == self.end() ==> path_cost(r) <= path_cost(q),
    {
        self.lemma_path_sound(r);
        assert(self.is_walk(r));
        self.lemma_walk_reverse(r);
        assert(r.reverse()[0] == self.start());
        assert(r.reverse()[r.reverse().len() - 1] == self.end());
        assert(self.g_at(self.end().x as int, self.end().y as int) <= path_cost(r.reverse()));
    }

    /// Reversing a walk gives a walk with the same cost and swapped ends.
    /// With this, the path that `get_path` reconstructs (from the goal back
    /// to the start) competes in the optimality bound of `step` exactly
    /// like any walk from the start to the goal.
    pub proof fn lemma_walk_reverse(self, q: Seq<Vector2<usize>>)
        requires
            self.is_walk(q),
        ensures
            self.is_walk(q.reverse()),
            path_cost(q.reverse()) == path_cost(q),
            q.reverse()[0] == q[q.len() - 1],
            q.reverse()[q.len() - 1] == q[0],
        decreases q.len(),
    {
        assert forall|i: int|
            0 <= i < q.reverse().len() implies self.in_bounds(
            (#[trigger] q.reverse()[i]).x as int,
            q.reverse()[i].y as int,
        ) && !self.wall_at(q.reverse()[i].x as int, q.reverse()[i].y as int) by {
            assert(q.reverse()[i] == q[q.len() - 1 - i]);
        }
        assert forall|i: int| #![trigger q.reverse()[i], q.reverse()[i + 1]]
            0 <= i < q.reverse().len() - 1 implies adjacent(q.reverse()[i], q.reverse()[i + 1]) by {
            let m = q.len() - 2 - i;
            assert(q.reverse()[i] == q[m + 1]);
            assert(q.reverse()[i + 1] == q[m]);
            assert(adjacent(q[m], q[m + 1]));
        }
        if q.len() == 1 {
            assert(q.reverse() =~= q);
        } else {
            let t = q.drop_first();
            assert forall|i: int| #![trigger t[i], t[i + 1]]
                0 <= i < t.len() - 1 implies adjacent(t[i], t[i + 1]) by {
                assert(t[i] == q[i + 1]);
                assert(t[i + 1] == q[i + 1 + 1]);
            }
            assert forall|i: int|
                0 <= i < t.len() implies self.in_bounds(
                (#[trigger] t[i]).x as int,
                t[i].y as int,
            ) && !self.wall_at(t[i].x as int, t[i].y as int) by {
                assert(t[i] == q[i + 1]);
            }
            assert(self.is_walk(t));
            self.lemma_walk_reverse(t);
            assert(q.reverse() =~= t.reverse().push(q[0]));
            lemma_path_cost_push(t.reverse(), q[0]);
            assert(t.reverse()[t.len() - 1] == t[0]);
            assert(t[0] == q[1]);
            assert(move_cost(q[1], q[0]) == move_cost(q[0], q[1]));
            assert(path_cost(q) == move_cost(q[0], q[1]) + path_cost(t));
        }
    }

    /// A* optimality at the goal: the moment an expansion pops the goal
    /// from a covered state, the cost recorded for the goal cell is a lower
    /// bound for every walk from the start to the goal — no cheaper way
    /// exists. The popped entry is minimal in `f = g + h`, the frontier
    /// covered the candidate walk, and by the consistency of the octile
    /// heuristic the covering entry's `f` never exceeds the walk's cost.
    #[verifier::rlimit(100)]
    #[verifier::spinoff_prover]
    pub proof fn lemma_goal_optimal(self, post: AStar, k: int, q: Seq<Vector2<usize>>)
        requires
            self.inv(),
            self.covered(),
            self.expanded(post, k),
            self.frontier_view()[k].pos == self.end(),
            self.is_walk(q),
            q[0] == self.start(),
            q[q.len() - 1] == self.end(),
        ensures
            self.g_at(self.end().x as int, self.end().y as int) <= path_cost(q),
    {
        let n = self.frontier@[k];
        let e_pos = self.end_pos;
        let ex = e_pos.x as int;
        let ey = e_pos.y as int;
        let s_pos = self.start_pos@;
        let sx = s_pos.x as int;
        let sy = s_pos.y as int;
        assert(self.node_ok(n));
        assert(self.in_bounds(sx, sy) && self.g_at(sx, sy) == 0);
        lemma_path_cost_nonneg(q);

        if self.g_at(ex, ey) > path_cost(q) {
            assert(grid_pos(sx, sy) == s_pos && grid_pos(ex, ey) == e_pos);
            assert(self.g_at(q[q.len() - 1].x as int, q[q.len() - 1].y as int) > self.g_at(
                q[0].x as int,
                q[0].y as int,
            ) + path_cost(q));
            assert(self.covers(q));
            let (i, j) = choose|i: int, j: int|
                #![trigger q[i], self.frontier@[j]]
                {
                    &&& 0 <= i < q.len()
                    &&& 0 <= j < self.frontier@.len()
                    &&& self.frontier@[j].pos == q[i]
                    &&& self.frontier@[j].g_cost <= self.g_at(q[0].x as int, q[0].y as int)
                        + path_cost(q.take(i + 1))
                };
            let e = self.frontier@[j];
            assert(self.node_ok(e));
            assert(!pops_before(e, n));

            // Consistency, telescoped along the walk's tail: the covering
            // entry's heuristic cannot exceed the tail's cost.
            let suf = q.subrange(i, q.len() as int);
            assert forall|m: int| #![trigger suf[m], suf[m + 1]]
                0 <= m < suf.len() - 1 implies adjacent(suf[m], suf[m + 1]) by {
                assert(suf[m] == q[i + m]);
                assert(suf[m + 1] == q[i + m + 1]);
            }
            assert(suf[suf.len() - 1] == e_pos);
            lemma_heuristic_admissible(suf, e_pos);
            assert(e.h_cost as int == octile(e.pos, e_pos));
            assert(suf[0] == q[i] && q[i] == e.pos);
            assert(octile(e.pos, e_pos) <= path_cost(suf));
            lemma_path_cost_split(q, i);

            // The popped entry's priority is exactly the goal's recorded
            // cost or more, yet at most the covering entry's priority,
            // which the walk's cost bounds.
            assert(n.h_cost as int == octile(n.pos, e_pos));
            assert(octile(e_pos, e_pos) == 0);
            assert(self.g_at(ex, ey) <= n.g_cost);
            assert(n.g_cost + n.h_cost <= e.g_cost + e.h_cost);
            assert(e.g_cost + e.h_cost <= path_cost(q.take(i + 1)) + path_cost(suf));
            assert(false);
        }
    }
}

proof fn lemma_path_cost_nonneg(q: Seq<Vector2<usize>>)
    ensures
        0 <= path_cost(q),
    decreases q.len(),
{
    if q.len() > 1 {
        lemma_path_cost_nonneg(q.drop_first());
    }
}

proof fn lemma_path_cost_take_step(q: Seq<Vector2<usize>>, m: int)
    requires
        1 <= m < q.len(),
    ensures
        path_cost(q.take(m + 1)) == path_cost(q.take(m)) + move_cost(q[m - 1], q[m]),
{
    assert(q.take(m + 1) =~= q.take(m).push(q[m]));
    lemma_path_cost_push(q.take(m), q[m]);
}

proof fn lemma_path_cost_split(q: Seq<Vector2<usize>>, m: int)
    requires
        0 <= m < q.len(),
    ensures
        path_cost(q) == path_cost(q.take(m + 1)) + path_cost(q.subrange(m, q.len() as int)),
    decreases m,
{
    if m == 0 {
        assert(q.take(1).len() == 1);
        assert(path_cost(q.take(1)) == 0);
        assert(q.subrange(0, q.len() as int) =~= q);
    } else {
        let t = q.drop_first();
        lemma_path_cost_split(t, m - 1);
        assert(q.take(m + 1).drop_first() =~= t.take(m));
        assert(q.subrange(m, q.len() as int) =~= t.subrange(m - 1, t.len() as int));
        assert(q.take(m + 1)[0] == q[0] && q.take(m + 1)[1] == q[1]);
        assert(path_cost(q.take(m + 1)) == move_cost(q[0], q[1]) + path_cost(t.take(m)));
        assert(path_cost(q) == move_cost(q[0], q[1]) + path_cost(t));
    }
}

impl AStar {
    /// Recorded costs are honest: any cell with a finite recorded cost is
    /// genuinely reachable from the start through passable cells, and some
    /// such path costs no more than the recorded value.
    pub proof fn lemma_visited_reachable(self, x: int, y: int)
        requires
            self.inv(),
            self.in_bounds(x, y),
            self.visited_at(x, y),
        ensures
            exists|p: Seq<Vector2<usize>>|
                self.is_grid_path(p, self.start(), grid_pos(x, y)) && path_cost(p) <= self.g_at(
                    x,
                    y,
                ),
        decreases self.g_at(x, y),
    {
        assert(self.cell_ok(x, y));
        let n = self.cell_at(x, y);
        match n.prev_pos {
            None => {
                let p = seq![self.start()];
                assert(self.is_grid_path(p, self.start(), grid_pos(x, y)));
                assert(path_cost(p) == 0);
            },
            Some(pr) => {
                assert(self.cell_ok(pr.x as int, pr.y as int));
                self.lemma_visited_reachable(pr.x as int, pr.y as int);
                let p0 = choose|p: Seq<Vector2<usize>>|
                    self.is_grid_path(p, self.start(), grid_pos(pr.x as int, pr.y as int))
                        && path_cost(p) <= self.g_at(pr.x as int, pr.y as int);
                let p = p0.push(grid_pos(x, y));
                assert(grid_pos(pr.x as int, pr.y as int) == pr);
                lemma_path_cost_push(p0, grid_pos(x, y));
                assert(adjacent(pr, n.pos));
                assert(self.is_grid_path(p, self.start(), grid_pos(x, y)));
                assert(path_cost(p) <= self.g_at(x, y));
            },
        }
    }

    /// Whenever a node is current — in particular when the goal has just
    /// been reported — its cell is genuinely reachable from the start.
    /// Conversely, behind a complete wall barrier no cell ever becomes
    /// current, so such a search can only end in exhaustion.
    pub proof fn lemma_current_reachable(self)
        requires
            self.inv(),
            self.curr() is Some,
        ensures
            exists|p: Seq<Vector2<usize>>|
                self.is_grid_path(
                    p,
                    self.start(),
                    self.curr()->Some_0.pos,
                ) && path_cost(p) <= self.g_at(
                    self.curr()->Some_0.pos.x as int,
                    self.curr()->Some_0.pos.y as int,
                ),
    {
        let n = self.curr()->Some_0;
        assert(self.node_ok(n));
        self.lemma_visited_reachable(n.pos.x as int, n.pos.y as int);
        assert(grid_pos(n.pos.x as int, n.pos.y as int) == n.pos);
    }

    /// What `get_path` returns is sound: a chain of predecessor links (as
    /// `get_path`'s contract describes it) is a genuine wall-free walk from
    /// the current cell back to the start, and its total cost is at most
    /// the cost recorded for the cell it starts from. Together with the
    /// consistency of the heuristic this is the content of A*'s optimality
    /// argument that the engine's invariants make checkable; that the
    /// recorded cost also attains the true minimum is not stated here.
    #[verifier::rlimit(100)]
    #[verifier::spinoff_prover]
    pub proof fn lemma_path_sound(self, r: Seq<Vector2<usize>>)
        requires
            self.inv(),
            r.len() >= 1,
            forall|i: int|
                0 <= i < r.len() ==> self.in_bounds((#[trigger] r[i]).x as int, r[i].y as int)
                    && self.visited_at(r[i].x as int, r[i].y as int),
            forall|i: int|
                #![trigger r[i], r[i + 1]]
                0 <= i < r.len() - 1 ==> self.pred_at(r[i].x as int, r[i].y as int) == Some(
                    r[i + 1],
                ),
            self.pred_at(r[r.len() - 1].x as int, r[r.len() - 1].y as int) is None,
        ensures
            self.is_grid_path(r, r[0], self.start()),
            r[r.len() - 1] == self.start(),
            path_cost(r) <= self.g_at(r[0].x as int, r[0].y as int),
            forall|i: int|
                #![trigger r[i], r[i + 1]]
                0 <= i < r.len() - 1 ==> self.g_at(r[i + 1].x as int, r[i + 1].y as int) + 10
                    <= self.g_at(r[i].x as int, r[i].y as int),
        decreases r.len(),
    {
        assert forall|i: int| #![trigger r[i], r[i + 1]]
            0 <= i < r.len() - 1 implies self.g_at(r[i + 1].x as int, r[i + 1].y as int) + 10
            <= self.g_at(r[i].x as int, r[i].y as int) by {
            assert(self.cell_ok(r[i].x as int, r[i].y as int));
        }
        assert(self.cell_ok(r[0].x as int, r[0].y as int));
        if r.len() == 1 {
            assert(r[0] == self.start());
        } else {
            let t = r.drop_first();
            assert(self.cell_ok(r[1].x as int, r[1].y as int));
            assert forall|i: int|
                0 <= i < t.len() implies self.in_bounds((#[trigger] t[i]).x as int, t[i].y as int)
                && self.visited_at(t[i].x as int, t[i].y as int) by {
                assert(t[i] == r[i + 1]);
            }
            assert forall|i: int| #![trigger t[i], t[i + 1]]
                0 <= i < t.len() - 1 implies self.pred_at(t[i].x as int, t[i].y as int) == Some(
                t[i + 1],
            ) by {
                assert(t[i] == r[i + 1]);
                assert(t[i + 1] == r[i + 2]);
            }
            assert(t[t.len() - 1] == r[r.len() - 1]);
            self.lemma_path_sound(t);
            assert(adjacent(r[1], r[0]));
            assert(adjacent(r[0], r[1]));
            assert(move_cost(r[0], r[1]) == move_cost(r[1], r[0]));
            assert(path_cost(r) == move_cost(r[0], r[1]) + path_cost(t));
            assert forall|i: int| #![trigger r[i], r[i + 1]]
                0 <= i < r.len() - 1 implies adjacent(r[i], r[i + 1]) by {
                if i == 0 {
                } else {
                    assert(t[i - 1] == r[i]);
                    assert(t[i] == r[i + 1]);
                    assert(self.is_grid_path(t, t[0], self.start()));
                }
            }
        }
        assert forall|i: int|
            0 <= i < r.len() implies self.in_bounds((#[trigger] r[i]).x as int, r[i].y as int)
            && !self.wall_at(r[i].x as int, r[i].y as int) by {
            assert(self.cell_ok(r[i].x as int, r[i].y as int));
        }
    }
}

impl AStar {
    /// Along a predecessor chain the recorded cost strictly falls, so the
    /// chain can never revisit a cell: the predecessor links are acyclic,
    /// and every reconstructed path is simple.
    pub proof fn lemma_path_acyclic(self, r: Seq<Vector2<usize>>, i: int, j: int)
        requires
            forall|m: int|
                #![trigger r[m], r[m + 1]]
                0 <= m < r.len() - 1 ==> self.g_at(r[m + 1].x as int, r[m + 1].y as int) + 10
                    <= self.g_at(r[m].x as int, r[m].y as int),
            0 <= i < j < r.len(),
        ensures
            self.g_at(r[j].x as int, r[j].y as int) < self.g_at(r[i].x as int, r[i].y as int),
            r[i] != r[j],
        decreases j - i,
    {
        if i + 1 == j {
        } else {
            self.lemma_path_acyclic(r, i + 1, j);
        }
    }

    /// Deterministic tie-break: an expansion pops a frontier entry of
    /// minimal priority, so whenever two entries carry the same total cost
    /// `f = g + h`, the one with the larger heuristic estimate `h` is never
    /// popped while the other waits.
    pub proof fn lemma_tie_break(self, post: AStar, k: int, j: int)
        requires
            self.expanded(post, k),
            0 <= j < self.frontier_view().len(),
            self.frontier_view()[j].g_cost + self.frontier_view()[j].h_cost
                == self.frontier_view()[k].g_cost + self.frontier_view()[k].h_cost,
        ensures
            self.frontier_view()[k].h_cost <= self.frontier_view()[j].h_cost,
    {
        assert(!pops_before(self.frontier_view()[j], self.frontier_view()[k]));
    }

    /// A search whose start is its end is over after one expansion: from a
    /// freshly initialized engine (the frontier holds exactly the start
    /// node), the first expansion pops that node, reports the goal, leaves
    /// the frontier empty and the records untouched — and since the start
    /// cell has no predecessor, the reconstructed path is the single cell
    /// `[start]`.
    pub proof fn lemma_trivial_step(self, post: AStar, k: int)
        requires
            self.inv(),
            self.frontier_view() == seq![start_node(self.start(), self.end())],
            self.start() == self.end(),
            self.expanded(post, k),
        ensures
            self.frontier_view()[k].pos == self.end(),
            post.curr() == Some(start_node(self.start(), self.end())),
            post.frontier_view().len() == 0,
            forall|x: int, y: int|
                self.in_bounds(x, y) ==> #[trigger] post.cell_at(x, y) == self.cell_at(x, y),
            self.in_bounds(self.start().x as int, self.start().y as int) ==> post.pred_at(
                self.start().x as int,
                self.start().y as int,
            ) == self.pred_at(self.start().x as int, self.start().y as int),
    {
        assert(k == 0);
        assert(self.frontier_view()[0] == start_node(self.start(), self.end()));
        assert(post.frontier@ == self.frontier@.remove(0));
    }
}

impl Pathfinder for AStar {
    /// The strategy invariant of the engine is [`AStar::inv`].
    closed spec fn wf(&self) -> bool {
        self.inv()
    }

    closed spec fn grid_rows(&self) -> int {
        AStar::grid_rows(*self)
    }

    closed spec fn grid_cols(&self) -> int {
        AStar::grid_cols(*self)
    }

    fn init(
        &mut self,
        rows: i32,
        cols: i32,
        start_pos: Vector2<usize>,
        end_pos: Vector2<usize>,
        walls: Vec<Vec<bool>>,
    ) {
        AStar::init(self, rows, cols, start_pos, end_pos, walls)
    }

    fn step(&mut self) -> (r: Option<Vector2<usize>>) {
        let r = AStar::step(self);
        proof {
            if r is Some {
                let k = choose|k: int|
                    #[trigger] old(self).expanded(*self, k) && r->Some_0 == old(
                        self,
                    ).frontier_view()[k].pos;
                assert(old(self).node_ok(old(self).frontier_view()[k]));
            }
        }
        r
    }

    fn get_frontier(&self) -> (r: Vec<Vector2<usize>>) {
        let r = AStar::get_frontier(self);
        proof {
            assert forall|i: int|
                0 <= i < r@.len() implies crate::pathfinder::pos_in_grid(
                #[trigger] r@[i],
                AStar::grid_rows(*self),
                AStar::grid_cols(*self),
            ) by {
                assert(self.node_ok(self.frontier_view()[i]));
            }
        }
        r
    }

    fn get_path(&self) -> (r: Vec<Vector2<usize>>) {
        AStar::get_path(self)
    }

    fn get_visited(&self) -> (r: Vec<Vec<bool>>) {
        AStar::get_visited(self)
    }

    fn get_state(&self) -> (r: Vec<Vec<Option<String>>>) {
        AStar::get_state(self)
    }

    fn deinit(&mut self) {
        AStar::deinit(self)
    }
}

/// The one-character string for a decimal digit.
fn digit_str(d: i32) -> (s: &'static str)
    requires
        0 <= d <= 9,
    ensures
        s@ == seq![digit_char(d as int)],
{
    if d == 0 {
        proof {
            reveal_strlit("0");
            assert("0"@ =~= seq![digit_char(0)]);
        }
        "0"
    } else if d == 1 {
        proof {
            reveal_strlit("1");
            assert("1"@ =~= seq![digit_char(1)]);
        }
        "1"
    } else if d == 2 {
        proof {
            reveal_strlit("2");
            assert("2"@ =~= seq![digit_char(2)]);
        }
        "2"
    } else if d == 3 {
        proof {
            reveal_strlit("3");
            assert("3"@ =~= seq![digit_char(3)]);
        }
        "3"
    } else if d == 4 {
        proof {
            reveal_strlit("4");
            assert("4"@ =~= seq![digit_char(4)]);
        }
        "4"
    } else if d == 5 {
        proof {
            reveal_strlit("5");
            assert("5"@ =~= seq![digit_char(5)]);
        }
        "5"
    } else if d == 6 {
        proof {
            reveal_strlit("6");
            assert("6"@ =~= seq![digit_char(6)]);
        }
        "6"
    } else if d == 7 {
        proof {
            reveal_strlit("7");
            assert("7"@ =~= seq![digit_char(7)]);
        }
        "7"
    } else if d == 8 {
        proof {
            reveal_strlit("8");
            assert("8"@ =~= seq![digit_char(8)]);
        }
        "8"
    } else {
        proof {
            reveal_strlit("9");
            assert("9"@ =~= seq![digit_char(9)]);
        }
        "9"
    }
}

/// Renders a non-negative cost in decimal.
fn decimal_string(n: i32) -> (s: String)
    requires
        0 <= n,
    ensures
        s@ == dec_str(n as int),
    decreases n,
{
    if n < 10 {
        String::from_str(digit_str(n))
    } else {
        let mut s = decimal_string(n / 10);
        s.append(digit_str(n % 10));
        s
    }
}

/// Renders the debug token of a visited cell.
fn cost_token(g: i32, h: i32) -> (s: String)
    requires
        0 <= g,
        0 <= h,
    ensures
        s@ == state_token(g as int, h as int),
{
    let mut s = decimal_string(g);
    proof {
        reveal_strlit("|");
        assert("|"@ =~= seq!['|']);
    }
    s.append("|");
    let t = decimal_string(h);
    s.append(t.as_str());
    s
}

proof fn lemma_count_single_seq(s: Seq<AStarNode>, sidx: int)
    requires
        0 <= sidx < s.len(),
        s[sidx].g_cost != i32::MAX,
        forall|k: int| 0 <= k < s.len() && k != sidx ==> (#[trigger] s[k]).g_cost == i32::MAX,
    ensures
        visited_count(s) == 1,
    decreases s.len(),
{
    if sidx == s.len() - 1 {
        lemma_count_zero(s.drop_last());
    } else {
        lemma_count_single_seq(s.drop_last(), sidx);
    }
}

proof fn lemma_count_zero(s: Seq<AStarNode>)
    requires
        forall|k: int| 0 <= k < s.len() ==> (#[trigger] s[k]).g_cost == i32::MAX,
    ensures
        visited_count(s) == 0,
    decreases s.len(),
{
    if s.len() > 0 {
        lemma_count_zero(s.drop_last());
    }
}

proof fn lemma_count_bounds(s: Seq<AStarNode>)
    ensures
        0 <= visited_count(s) <= s.len(),
    decreases s.len(),
{
    if s.len() > 0 {
        lemma_count_bounds(s.drop_last());
    }
}

proof fn lemma_count_update(s: Seq<AStarNode>, i: int, v: AStarNode)
    requires
        0 <= i < s.len(),
    ensures
        visited_count(s.update(i, v)) == visited_count(s) + (if v.g_cost != i32::MAX {
            1int
        } else {
            0int
        }) - (if s[i].g_cost != i32::MAX {
            1int
        } else {
            0int
        }),
    decreases s.len(),
{
    let t = s.update(i, v);
    if i == s.len() - 1 {
        assert(t.drop_last() =~= s.drop_last());
    } else {
        assert(t.drop_last() =~= s.drop_last().update(i, v));
        lemma_count_update(s.drop_last(), i, v);
    }
}

proof fn lemma_g_sum_update(s: Seq<AStarNode>, i: int, v: AStarNode)
    requires
        0 <= i < s.len(),
    ensures
        g_sum(s.update(i, v)) == g_sum(s) - s[i].g_cost + v.g_cost,
    decreases s.len(),
{
    let t = s.update(i, v);
    if i == s.len() - 1 {
        assert(t.drop_last() =~= s.drop_last());
    } else {
        assert(t.drop_last() =~= s.drop_last().update(i, v));
        lemma_g_sum_update(s.drop_last(), i, v);
    }
}

proof fn lemma_g_sum_nonneg(s: Seq<AStarNode>)
    requires
        forall|k: int| 0 <= k < s.len() ==> 0 <= (#[trigger] s[k]).g_cost,
    ensures
        0 <= g_sum(s),
    decreases s.len(),
{
    if s.len() > 0 {
        lemma_g_sum_nonneg(s.drop_last());
    }
}

proof fn lemma_idx_bounds(x: int, y: int, rows: int, cols: int)
    requires
        0 <= x < cols,
        0 <= y < rows,
    ensures
        0 <= y * cols + x < rows * cols,
{
    assert(y * cols + x < rows * cols) by (nonlinear_arith)
        requires
            0 <= x < cols,
            0 <= y < rows,
    ;
    assert(y * cols + x >= 0) by (nonlinear_arith)
        requires
            0 <= x,
            0 <= y,
            0 <= cols,
    ;
}

/// An improving neighbor's fresh entry really is somewhere in the
/// sequence of pushes of the expansion.
proof fn lemma_pushes_contains(pre: AStar, n: AStarNode, x: int, y: int)
    requires
        pre.relaxed_by(n, x, y),
    ensures
        exists|m: int|
            0 <= m < pre.pushes(n).len() && #[trigger] pre.pushes(n)[m] == pre.improved_node(
                n,
                x,
                y,
            ),
{
    let px = n.pos.x as int;
    let py = n.pos.y as int;
    let e = pre.improved_node(n, x, y);
    if x == px - 1 && y == py - 1 {
        assert(pre.push_at(n, -1, -1)[0] == e);
        assert(pre.pushes(n)[0] == e);
    } else if x == px - 1 && y == py {
        assert(pre.push_at(n, -1, 0)[0] == e);
        let pfx = pre.push_at(n, -1, -1);
        assert((pfx + pre.push_at(n, -1, 0))[pfx.len() as int] == e);
        assert(pre.pushes(n)[pfx.len() as int] == e);
    } else if x == px - 1 && y == py + 1 {
        assert(pre.push_at(n, -1, 1)[0] == e);
        let pfx = pre.push_at(n, -1, -1) + pre.push_at(n, -1, 0);
        assert((pfx + pre.push_at(n, -1, 1))[pfx.len() as int] == e);
        assert(pre.pushes(n)[pfx.len() as int] == e);
    } else if x == px && y == py - 1 {
        assert(pre.push_at(n, 0, -1)[0] == e);
        let pfx = pre.push_at(n, -1, -1) + pre.push_at(n, -1, 0) + pre.push_at(n, -1, 1);
        assert((pfx + pre.push_at(n, 0, -1))[pfx.len() as int] == e);
        assert(pre.pushes(n)[pfx.len() as int] == e);
    } else if x == px && y == py + 1 {
        assert(pre.push_at(n, 0, 1)[0] == e);
        let pfx = pre.push_at(n, -1, -1) + pre.push_at(n, -1, 0) + pre.push_at(n, -1, 1) + pre.push_at(n, 0, -1);
        assert((pfx + pre.push_at(n, 0, 1))[pfx.len() as int] == e);
        assert(pre.pushes(n)[pfx.len() as int] == e);
    } else if x == px + 1 && y == py - 1 {
        assert(pre.push_at(n, 1, -1)[0] == e);
        let pfx = pre.push_at(n, -1, -1) + pre.push_at(n, -1, 0) + pre.push_at(n, -1, 1) + pre.push_at(n, 0, -1) + pre.push_at(n, 0, 1);
        assert((pfx + pre.push_at(n, 1, -1))[pfx.len() as int] == e);
        assert(pre.pushes(n)[pfx.len() as int] == e);
    } else if x == px + 1 && y == py {
        assert(pre.push_at(n, 1, 0)[0] == e);
        let pfx = pre.push_at(n, -1, -1) + pre.push_at(n, -1, 0) + pre.push_at(n, -1, 1) + pre.push_at(n, 0, -1) + pre.push_at(n, 0, 1) + pre.push_at(n, 1, -1);
        assert((pfx + pre.push_at(n, 1, 0))[pfx.len() as int] == e);
        assert(pre.pushes(n)[pfx.len() as int] == e);
    } else if x == px + 1 && y == py + 1 {
        assert(pre.push_at(n, 1, 1)[0] == e);
        let pfx = pre.push_at(n, -1, -1) + pre.push_at(n, -1, 0) + pre.push_at(n, -1, 1) + pre.push_at(n, 0, -1) + pre.push_at(n, 0, 1) + pre.push_at(n, 1, -1) + pre.push_at(n, 1, 0);
        assert((pfx + pre.push_at(n, 1, 1))[pfx.len() as int] == e);
        assert(pre.pushes(n)[pfx.len() as int] == e);

    } else {
        assert(!adjacent(n.pos, grid_pos(x, y)));
        assert(false);
    }
}

/// One neighbor relaxation leaves every cell other than its own target
/// untouched, and never changes the grid's shape.
proof fn lemma_relax_keeps(prev: AStar, post: AStar, n: AStarNode, dx: int, dy: int, x: int, y: int)
    requires
        prev.relax_post(post, n, dx, dy),
        0 <= prev.rows as int,
        prev.state@.len() == (prev.rows as int) * (prev.cols as int),
        0 <= x < prev.cols as int,
        0 <= y < prev.rows as int,
        !(x == n.pos.x as int + dx && y == n.pos.y as int + dy),
    ensures
        post.cell_at(x, y) == prev.cell_at(x, y),
        post.rows == prev.rows,
        post.cols == prev.cols,
        post.walls == prev.walls,
        post.end_pos == prev.end_pos,
        post.state@.len() == prev.state@.len(),
{
    let c = prev.cols as int;
    let r = prev.rows as int;
    let tx = n.pos.x as int + dx;
    let ty = n.pos.y as int + dy;
    if prev.improves(n, tx, ty) {
        lemma_idx_bounds(x, y, r, c);
        lemma_idx_bounds(tx, ty, r, c);
        if idx_at(x, y, c) == idx_at(tx, ty, c) {
            lemma_idx_inj(x, y, tx, ty, c);
        }
    }
}

/// Composing the eight neighbor relaxations of one expansion of `n`,
/// cell by cell: each relaxation touches a different cell, so the final
/// table is the relaxation formula applied to the table before the
/// expansion (`pre`).
#[verifier::rlimit(100)]
#[verifier::spinoff_prover]
proof fn lemma_relax_chain_cells(
    pre: AStar,
    s0: AStar,
    s1: AStar,
    s2: AStar,
    s3: AStar,
    s4: AStar,
    s5: AStar,
    s6: AStar,
    s7: AStar,
    sf: AStar,
    n: AStarNode,
)
    requires
        0 <= pre.rows as int,
        0 <= pre.cols as int,
        pre.state@.len() == (pre.rows as int) * (pre.cols as int),
        s0.state == pre.state,
        s0.rows == pre.rows,
        s0.cols == pre.cols,
        s0.walls == pre.walls,
        s0.end_pos == pre.end_pos,
        s0.relax_post(s1, n, -1, -1),
        s1.relax_post(s2, n, -1, 0),
        s2.relax_post(s3, n, -1, 1),
        s3.relax_post(s4, n, 0, -1),
        s4.relax_post(s5, n, 0, 1),
        s5.relax_post(s6, n, 1, -1),
        s6.relax_post(s7, n, 1, 0),
        s7.relax_post(sf, n, 1, 1),
    ensures
        forall|x: int, y: int|
            pre.in_bounds(x, y) ==> #[trigger] sf.cell_at(x, y) == (if pre.relaxed_by(n, x, y) {
                AStarNode {
                    g_cost: pre.improved_node(n, x, y).g_cost,
                    prev_pos: Some(n.pos),
                    ..pre.cell_at(x, y)
                }
            } else {
                pre.cell_at(x, y)
            }),
{
    let c = pre.cols as int;
    let r = pre.rows as int;
    let px = n.pos.x as int;
    let py = n.pos.y as int;
    assert forall|x: int, y: int| pre.in_bounds(x, y) implies #[trigger] sf.cell_at(x, y) == (
    if pre.relaxed_by(n, x, y) {
        AStarNode {
            g_cost: pre.improved_node(n, x, y).g_cost,
            prev_pos: Some(n.pos),
            ..pre.cell_at(x, y)
        }
    } else {
        pre.cell_at(x, y)
    }) by {
        if x == px - 1 && y == py - 1 {
            assert(adjacent(n.pos, grid_pos(x, y)));
            assert(s0.cell_at(x, y) == pre.cell_at(x, y));
            if pre.improves(n, x, y) {
                lemma_idx_bounds(x, y, r, c);
                assert(s1.cell_at(x, y) == AStarNode {
                    g_cost: pre.improved_node(n, x, y).g_cost,
                    prev_pos: Some(n.pos),
                    ..pre.cell_at(x, y)
                });
            } else {
                assert(s1.cell_at(x, y) == s0.cell_at(x, y));
            }
            lemma_relax_keeps(s1, s2, n, -1, 0, x, y);
            lemma_relax_keeps(s2, s3, n, -1, 1, x, y);
            lemma_relax_keeps(s3, s4, n, 0, -1, x, y);
            lemma_relax_keeps(s4, s5, n, 0, 1, x, y);
            lemma_relax_keeps(s5, s6, n, 1, -1, x, y);
            lemma_relax_keeps(s6, s7, n, 1, 0, x, y);
            lemma_relax_keeps(s7, sf, n, 1, 1, x, y);
        } else if x == px - 1 && y == py {
            assert(adjacent(n.pos, grid_pos(x, y)));
            lemma_relax_keeps(s0, s1, n, -1, -1, x, y);
            assert(s1.cell_at(x, y) == pre.cell_at(x, y));
            if pre.improves(n, x, y) {
                lemma_idx_bounds(x, y, r, c);
                assert(s2.cell_at(x, y) == AStarNode {
                    g_cost: pre.improved_node(n, x, y).g_cost,
                    prev_pos: Some(n.pos),
                    ..pre.cell_at(x, y)
                });
            } else {
                assert(s2.cell_at(x, y) == s1.cell_at(x, y));
            }
            lemma_relax_keeps(s2, s3, n, -1, 1, x, y);
            lemma_relax_keeps(s3, s4, n, 0, -1, x, y);
            lemma_relax_keeps(s4, s5, n, 0, 1, x, y);
            lemma_relax_keeps(s5, s6, n, 1, -1, x, y);
            lemma_relax_keeps(s6, s7, n, 1, 0, x, y);
            lemma_relax_keeps(s7, sf, n, 1, 1, x, y);
        } else if x == px - 1 && y == py + 1 {
            assert(adjacent(n.pos, grid_pos(x, y)));
            lemma_relax_keeps(s0, s1, n, -1, -1, x, y);
            lemma_relax_keeps(s1, s2, n, -1, 0, x, y);
            assert(s2.cell_at(x, y) == pre.cell_at(x, y));
            if pre.improves(n, x, y) {
                lemma_idx_bounds(x, y, r, c);
                assert(s3.cell_at(x, y) == AStarNode {
                    g_cost: pre.improved_node(n, x, y).g_cost,
                    prev_pos: Some(n.pos),
                    ..pre.cell_at(x, y)
                });
            } else {
                assert(s3.cell_at(x, y) == s2.cell_at(x, y));
            }
            lemma_relax_keeps(s3, s4, n, 0, -1, x, y);
            lemma_relax_keeps(s4, s5, n, 0, 1, x, y);
            lemma_relax_keeps(s5, s6, n, 1, -1, x, y);
            lemma_relax_keeps(s6, s7, n, 1, 0, x, y);
            lemma_relax_keeps(s7, sf, n, 1, 1, x, y);
        } else if x == px && y == py - 1 {
            assert(adjacent(n.pos, grid_pos(x, y)));
            lemma_relax_keeps(s0, s1, n, -1, -1, x, y);
            lemma_relax_keeps(s1, s2, n, -1, 0, x, y);
            lemma_relax_keeps(s2, s3, n, -1, 1, x, y);
            assert(s3.cell_at(x, y) == pre.cell_at(x, y));
            if pre.improves(n, x, y) {
                lemma_idx_bounds(x, y, r, c);
                assert(s4.cell_at(x, y) == AStarNode {
                    g_cost: pre.improved_node(n, x, y).g_cost,
                    prev_pos: Some(n.pos),
                    ..pre.cell_at(x, y)
                });
            } else {
                assert(s4.cell_at(x, y) == s3.cell_at(x, y));
            }
            lemma_relax_keeps(s4, s5, n, 0, 1, x, y);
            lemma_relax_keeps(s5, s6, n, 1, -1, x, y);
            lemma_relax_keeps(s6, s7, n, 1, 0, x, y);
            lemma_relax_keeps(s7, sf, n, 1, 1, x, y);
        } else if x == px && y == py + 1 {
            assert(adjacent(n.pos, grid_pos(x, y)));
            lemma_relax_keeps(s0, s1, n, -1, -1, x, y);
            lemma_relax_keeps(s1, s2, n, -1, 0, x, y);
            lemma_relax_keeps(s2, s3, n, -1, 1, x, y);
            lemma_relax_keeps(s3, s4, n, 0, -1, x, y);
            assert(s4.cell_at(x, y) == pre.cell_at(x, y));
            if pre.improves(n, x, y) {
                lemma_idx_bounds(x, y, r, c);
                assert(s5.cell_at(x, y) == AStarNode {
                    g_cost: pre.improved_node(n, x, y).g_cost,
                    prev_pos: Some(n.pos),
                    ..pre.cell_at(x, y)
                });
            } else {
                assert(s5.cell_at(x, y) == s4.cell_at(x, y));
            }
            lemma_relax_keeps(s5, s6, n, 1, -1, x, y);
            lemma_relax_keeps(s6, s7, n, 1, 0, x, y);
            lemma_relax_keeps(s7, sf, n, 1, 1, x, y);
        } else if x == px + 1 && y == py - 1 {
            assert(adjacent(n.pos, grid_pos(x, y)));
            lemma_relax_keeps(s0, s1, n, -1, -1, x, y);
            lemma_relax_keeps(s1, s2, n, -1, 0, x, y);
            lemma_relax_keeps(s2, s3, n, -1, 1, x, y);
            lemma_relax_keeps(s3, s4, n, 0, -1, x, y);
            lemma_relax_keeps(s4, s5, n, 0, 1, x, y);
            assert(s5.cell_at(x, y) == pre.cell_at(x, y));
            if pre.improves(n, x, y) {
                lemma_idx_bounds(x, y, r, c);
                assert(s6.cell_at(x, y) == AStarNode {
                    g_cost: pre.improved_node(n, x, y).g_cost,
                    prev_pos: Some(n.pos),
                    ..pre.cell_at(x, y)
                });
            } else {
                assert(s6.cell_at(x, y) == s5.cell_at(x, y));
            }
            lemma_relax_keeps(s6, s7, n, 1, 0, x, y);
            lemma_relax_keeps(s7, sf, n, 1, 1, x, y);
        } else if x == px + 1 && y == py {
            assert(adjacent(n.pos, grid_pos(x, y)));
            lemma_relax_keeps(s0, s1, n, -1, -1, x, y);
            lemma_relax_keeps(s1, s2, n, -1, 0, x, y);
            lemma_relax_keeps(s2, s3, n, -1, 1, x, y);
            lemma_relax_keeps(s3, s4, n, 0, -1, x, y);
            lemma_relax_keeps(s4, s5, n, 0, 1, x, y);
            lemma_relax_keeps(s5, s6, n, 1, -1, x, y);
            assert(s6.cell_at(x, y) == pre.cell_at(x, y));
            if pre.improves(n, x, y) {
                lemma_idx_bounds(x, y, r, c);
                assert(s7.cell_at(x, y) == AStarNode {
                    g_cost: pre.improved_node(n, x, y).g_cost,
                    prev_pos: Some(n.pos),
                    ..pre.cell_at(x, y)
                });
            } else {
                assert(s7.cell_at(x, y) == s6.cell_at(x, y));
            }
            lemma_relax_keeps(s7, sf, n, 1, 1, x, y);
        } else if x == px + 1 && y == py + 1 {
            assert(adjacent(n.pos, grid_pos(x, y)));
            lemma_relax_keeps(s0, s1, n, -1, -1, x, y);
            lemma_relax_keeps(s1, s2, n, -1, 0, x, y);
            lemma_relax_keeps(s2, s3, n, -1, 1, x, y);
            lemma_relax_keeps(s3, s4, n, 0, -1, x, y);
            lemma_relax_keeps(s4, s5, n, 0, 1, x, y);
            lemma_relax_keeps(s5, s6, n, 1, -1, x, y);
            lemma_relax_keeps(s6, s7, n, 1, 0, x, y);
            assert(s7.cell_at(x, y) == pre.cell_at(x, y));
            if pre.improves(n, x, y) {
                lemma_idx_bounds(x, y, r, c);
                assert(sf.cell_at(x, y) == AStarNode {
                    g_cost: pre.improved_node(n, x, y).g_cost,
                    prev_pos: Some(n.pos),
                    ..pre.cell_at(x, y)
                });
            } else {
                assert(sf.cell_at(x, y) == s7.cell_at(x, y));
            }
        } else {
            assert(!adjacent(n.pos, grid_pos(x, y)));
            lemma_relax_keeps(s0, s1, n, -1, -1, x, y);
            lemma_relax_keeps(s1, s2, n, -1, 0, x, y);
            lemma_relax_keeps(s2, s3, n, -1, 1, x, y);
            lemma_relax_keeps(s3, s4, n, 0, -1, x, y);
            lemma_relax_keeps(s4, s5, n, 0, 1, x, y);
            lemma_relax_keeps(s5, s6, n, 1, -1, x, y);
            lemma_relax_keeps(s6, s7, n, 1, 0, x, y);
            lemma_relax_keeps(s7, sf, n, 1, 1, x, y);
        }
    }
}

/// One neighbor relaxation never changes the grid's shape, goal, walls,
/// or current node.
proof fn lemma_relax_config(prev: AStar, post: AStar, n: AStarNode, dx: int, dy: int)
    requires
        prev.relax_post(post, n, dx, dy),
    ensures
        post.rows == prev.rows,
        post.cols == prev.cols,
        post.walls == prev.walls,
        post.end_pos == prev.end_pos,
        post.curr_node == prev.curr_node,
{
}

/// One neighbor relaxation appends exactly the push that the table before
/// the whole expansion (`pre`) prescribes, provided its target cell still
/// holds its pre-expansion record.
proof fn lemma_relax_push(pre: AStar, prev: AStar, post: AStar, n: AStarNode, dx: int, dy: int)
    requires
        prev.relax_post(post, n, dx, dy),
        prev.rows == pre.rows,
        prev.cols == pre.cols,
        prev.walls == pre.walls,
        prev.end_pos == pre.end_pos,
        ({
            let tx = n.pos.x as int + dx;
            let ty = n.pos.y as int + dy;
            pre.in_bounds(tx, ty) ==> prev.cell_at(tx, ty) == pre.cell_at(tx, ty)
        }),
    ensures
        post.frontier@ == prev.frontier@ + pre.push_at(n, dx, dy),
{
    let tx = n.pos.x as int + dx;
    let ty = n.pos.y as int + dy;
    assert(prev.improves(n, tx, ty) == pre.improves(n, tx, ty));
    assert(post.frontier@ =~= prev.frontier@ + pre.push_at(n, dx, dy));
}

/// Composing the eight neighbor relaxations of one expansion of `n`:
/// the frontier grows by exactly the pushes of the improving neighbors,
/// in the fixed neighbor order, as judged against the table before the
/// expansion (`pre`).
#[verifier::rlimit(100)]
#[verifier::spinoff_prover]
proof fn lemma_relax_chain_frontier(
    pre: AStar,
    s0: AStar,
    s1: AStar,
    s2: AStar,
    s3: AStar,
    s4: AStar,
    s5: AStar,
    s6: AStar,
    s7: AStar,
    sf: AStar,
    n: AStarNode,
)
    requires
        0 <= pre.rows as int,
        0 <= pre.cols as int,
        pre.state@.len() == (pre.rows as int) * (pre.cols as int),
        s0.state == pre.state,
        s0.rows == pre.rows,
        s0.cols == pre.cols,
        s0.walls == pre.walls,
        s0.end_pos == pre.end_pos,
        s0.relax_post(s1, n, -1, -1),
        s1.relax_post(s2, n, -1, 0),
        s2.relax_post(s3, n, -1, 1),
        s3.relax_post(s4, n, 0, -1),
        s4.relax_post(s5, n, 0, 1),
        s5.relax_post(s6, n, 1, -1),
        s6.relax_post(s7, n, 1, 0),
        s7.relax_post(sf, n, 1, 1),
    ensures
        sf.frontier@ == s0.frontier@ + pre.pushes(n),
{
    let c = pre.cols as int;
    let r = pre.rows as int;
    let px = n.pos.x as int;
    let py = n.pos.y as int;
    lemma_relax_config(s0, s1, n, -1, -1);
    lemma_relax_config(s1, s2, n, -1, 0);
    lemma_relax_config(s2, s3, n, -1, 1);
    lemma_relax_config(s3, s4, n, 0, -1);
    lemma_relax_config(s4, s5, n, 0, 1);
    lemma_relax_config(s5, s6, n, 1, -1);
    lemma_relax_config(s6, s7, n, 1, 0);
    lemma_relax_config(s7, sf, n, 1, 1);
    if pre.in_bounds(px - 1, py - 1) {
    }
    lemma_relax_push(pre, s0, s1, n, -1, -1);
    if pre.in_bounds(px - 1, py) {
        lemma_relax_keeps(s0, s1, n, -1, -1, px - 1, py);
    }
    lemma_relax_push(pre, s1, s2, n, -1, 0);
    if pre.in_bounds(px - 1, py + 1) {
        lemma_relax_keeps(s0, s1, n, -1, -1, px - 1, py + 1);
        lemma_relax_keeps(s1, s2, n, -1, 0, px - 1, py + 1);
    }
    lemma_relax_push(pre, s2, s3, n, -1, 1);
    if pre.in_bounds(px, py - 1) {
        lemma_relax_keeps(s0, s1, n, -1, -1, px, py - 1);
        lemma_relax_keeps(s1, s2, n, -1, 0, px, py - 1);
        lemma_relax_keeps(s2, s3, n, -1, 1, px, py - 1);
    }
    lemma_relax_push(pre, s3, s4, n, 0, -1);
    if pre.in_bounds(px, py + 1) {
        lemma_relax_keeps(s0, s1, n, -1, -1, px, py + 1);
        lemma_relax_keeps(s1, s2, n, -1, 0, px, py + 1);
        lemma_relax_keeps(s2, s3, n, -1, 1, px, py + 1);
        lemma_relax_keeps(s3, s4, n, 0, -1, px, py + 1);
    }
    lemma_relax_push(pre, s4, s5, n, 0, 1);
    if pre.in_bounds(px + 1, py - 1) {
        lemma_relax_keeps(s0, s1, n, -1, -1, px + 1, py - 1);
        lemma_relax_keeps(s1, s2, n, -1, 0, px + 1, py - 1);
        lemma_relax_keeps(s2, s3, n, -1, 1, px + 1, py - 1);
        lemma_relax_keeps(s3, s4, n, 0, -1, px + 1, py - 1);
        lemma_relax_keeps(s4, s5, n, 0, 1, px + 1, py - 1);
    }
    lemma_relax_push(pre, s5, s6, n, 1, -1);
    if pre.in_bounds(px + 1, py) {
        lemma_relax_keeps(s0, s1, n, -1, -1, px + 1, py);
        lemma_relax_keeps(s1, s2, n, -1, 0, px + 1, py);
        lemma_relax_keeps(s2, s3, n, -1, 1, px + 1, py);
        lemma_relax_keeps(s3, s4, n, 0, -1, px + 1, py);
        lemma_relax_keeps(s4, s5, n, 0, 1, px + 1, py);
        lemma_relax_keeps(s5, s6, n, 1, -1, px + 1, py);
    }
    lemma_relax_push(pre, s6, s7, n, 1, 0);
    if pre.in_bounds(px + 1, py + 1) {
        lemma_relax_keeps(s0, s1, n, -1, -1, px + 1, py + 1);
        lemma_relax_keeps(s1, s2, n, -1, 0, px + 1, py + 1);
        lemma_relax_keeps(s2, s3, n, -1, 1, px + 1, py + 1);
        lemma_relax_keeps(s3, s4, n, 0, -1, px + 1, py + 1);
        lemma_relax_keeps(s4, s5, n, 0, 1, px + 1, py + 1);
        lemma_relax_keeps(s5, s6, n, 1, -1, px + 1, py + 1);
        lemma_relax_keeps(s6, s7, n, 1, 0, px + 1, py + 1);
    }
    lemma_relax_push(pre, s7, sf, n, 1, 1);
    let f0 = s0.frontier@;
    let p1 = pre.push_at(n, -1, -1);
    let p2 = pre.push_at(n, -1, 0);
    let p3 = pre.push_at(n, -1, 1);
    let p4 = pre.push_at(n, 0, -1);
    let p5 = pre.push_at(n, 0, 1);
    let p6 = pre.push_at(n, 1, -1);
    let p7 = pre.push_at(n, 1, 0);
    let p8 = pre.push_at(n, 1, 1);
    vstd::seq_lib::lemma_concat_associative(f0, p1, p2);
    assert(s2.frontier@ == f0 + (p1 + p2));
    vstd::seq_lib::lemma_concat_associative(f0, p1 + p2, p3);
    assert(s3.frontier@ == f0 + (p1 + p2 + p3));
    vstd::seq_lib::lemma_concat_associative(f0, p1 + p2 + p3, p4);
    assert(s4.frontier@ == f0 + (p1 + p2 + p3 + p4));
    vstd::seq_lib::lemma_concat_associative(f0, p1 + p2 + p3 + p4, p5);
    assert(s5.frontier@ == f0 + (p1 + p2 + p3 + p4 + p5));
    vstd::seq_lib::lemma_concat_associative(f0, p1 + p2 + p3 + p4 + p5, p6);
    assert(s6.frontier@ == f0 + (p1 + p2 + p3 + p4 + p5 + p6));
    vstd::seq_lib::lemma_concat_associative(f0, p1 + p2 + p3 + p4 + p5 + p6, p7);
    assert(s7.frontier@ == f0 + (p1 + p2 + p3 + p4 + p5 + p6 + p7));
    vstd::seq_lib::lemma_concat_associative(f0, p1 + p2 + p3 + p4 + p5 + p6 + p7, p8);
    assert(sf.frontier@ == f0 + (p1 + p2 + p3 + p4 + p5 + p6 + p7 + p8));
    assert(sf.frontier@ == f0 + pre.pushes(n));
}


proof fn lemma_idx_inj(x1: int, y1: int, x2: int, y2: int, cols: int)
    requires
        0 <= x1 < cols,
        0 <= x2 < cols,
        0 <= y1,
        0 <= y2,
        y1 * cols + x1 == y2 * cols + x2,
    ensures
        x1 == x2 && y1 == y2,
{
    assert(y1 == y2 && x1 == x2) by (nonlinear_arith)
        requires
            0 <= x1 < cols,
            0 <= x2 < cols,
            0 <= y1,
            0 <= y2,
            y1 * cols + x1 == y2 * cols + x2,
    ;
}

proof fn lemma_mul_le(a: int, b: int, c: int)
    requires
        a <= b,
        0 <= c,
    ensures
        a * c <= b * c,
{
    assert(a * c <= b * c) by (nonlinear_arith)
        requires
            a <= b,
            0 <= c,
    ;
}

proof fn lemma_dims_le(rows: int, cols: int, m: int)
    requires
        1 <= rows,
        1 <= cols,
        rows * cols <= m,
    ensures
        rows <= m,
        cols <= m,
{
    assert(rows <= rows * cols && cols <= rows * cols) by (nonlinear_arith)
        requires
            1 <= rows,
            1 <= cols,
    ;
}

proof fn lemma_octile_range(p: Vector2<usize>, q: Vector2<usize>)
    ensures
        0 <= octile(p, q),
        octile(p, q) <= 14 * abs_diff(p.x as int, q.x as int) + 14 * abs_diff(
            p.y as int,
            q.y as int,
        ),
        p == q ==> octile(p, q) == 0,
{
}

} // verus!

use vstd::prelude::*;

use crate::vector::Vector2;

verus! {

/// Upper bound on `rows * cols` for a search grid.
///
/// Step costs are 10 (straight) and 14 (diagonal), so on a grid of at most
/// `MAX_CELLS` cells every recorded path cost stays at or below
/// `14 * (MAX_CELLS - 1)` and every priority `f = g + h` stays at or below
/// `28 * (MAX_CELLS - 1)`, which is still below `i32::MAX`. This keeps all of
/// the engine's cost arithmetic free of overflow.
pub const MAX_CELLS: i32 = 76_000_000;

/// Does position `p` lie on a grid with the given dimensions?
pub open spec fn pos_in_grid(p: Vector2<usize>, rows: int, cols: int) -> bool {
    (p.x as int) < cols && (p.y as int) < rows
}

/// A well-formed search configuration: positive dimensions, a small enough
/// grid (see [`MAX_CELLS`]), a wall matrix of matching shape, and start and
/// end positions that are in bounds and not themselves walls.
pub open spec fn valid_config(
    rows: i32,
    cols: i32,
    start_pos: Vector2<usize>,
    end_pos: Vector2<usize>,
    walls: Seq<Vec<bool>>,
) -> bool {
    &&& 0 < rows
    &&& 0 < cols
    &&& (rows as int) * (cols as int) <= MAX_CELLS as int
    &&& walls.len() == rows as int
    &&& (forall|i: int| 0 <= i < rows as int ==> (#[trigger] walls[i])@.len() == cols as int)
    &&& pos_in_grid(start_pos, rows as int, cols as int)
    &&& pos_in_grid(end_pos, rows as int, cols as int)
    &&& !walls[start_pos.y as int]@[start_pos.x as int]
    &&& !walls[end_pos.y as int]@[end_pos.x as int]
}

/// The capability contract that any incremental grid-search strategy must
/// satisfy: initialize a search, advance it one expansion at a time, let the
/// driver observe the frontier, the visited set, the reconstructed path and
/// per-cell debug state, and tear the search state down again.
///
/// `wf` is the strategy's own well-formedness invariant; every state an
/// implementation ever hands out satisfies it. Concrete strategies are free
/// to promise more in their implementations than the clauses written here.
pub trait Pathfinder {
    /// The strategy's internal well-formedness invariant.
    spec fn wf(&self) -> bool;

    /// Number of rows of the grid of the current search (0 before `init`
    /// and after `deinit`).
    spec fn grid_rows(&self) -> int;

    /// Number of columns of the grid of the current search.
    spec fn grid_cols(&self) -> int;

    /// Discards any prior search state and begins a new search from
    /// `start_pos` toward `end_pos` on a `rows` by `cols` grid whose
    /// impassable cells are marked `true` in `walls`.
    fn init(
        &mut self,
        rows: i32,
        cols: i32,
        start_pos: Vector2<usize>,
        end_pos: Vector2<usize>,
        walls: Vec<Vec<bool>>,
    )
        requires
            valid_config(rows, cols, start_pos, end_pos, walls@),
        ensures
            final(self).wf(),
            final(self).grid_rows() == rows as int,
            final(self).grid_cols() == cols as int,
    ;

    /// Advances the search by exactly one frontier expansion. Returns the
    /// position just expanded, or `None` once the frontier is exhausted
    /// (no path exists, or the search was never initialized).
    fn step(&mut self) -> (r: Option<Vector2<usize>>)
        requires
            old(self).wf(),
        ensures
            final(self).wf(),
            final(self).grid_rows() == old(self).grid_rows(),
            final(self).grid_cols() == old(self).grid_cols(),
            r matches Some(p) ==> pos_in_grid(p, old(self).grid_rows(), old(self).grid_cols()),
    ;

    /// The positions currently queued for expansion, in no particular order.
    fn get_frontier(&self) -> (r: Vec<Vector2<usize>>)
        requires
            self.wf(),
        ensures
            forall|i: int|
                0 <= i < r@.len() ==> pos_in_grid(#[trigger] r@[i], self.grid_rows(), self.grid_cols()),
    ;

    /// The ordered sequence of positions from the current node back to the
    /// start, following predecessor links; empty before the first step and
    /// after exhaustion.
    fn get_path(&self) -> (r: Vec<Vector2<usize>>)
        requires
            self.wf(),
        ensures
            forall|i: int|
                0 <= i < r@.len() ==> pos_in_grid(#[trigger] r@[i], self.grid_rows(), self.grid_cols()),
    ;

    /// For every cell, whether it has been reached at least once.
    fn get_visited(&self) -> (r: Vec<Vec<bool>>)
        requires
            self.wf(),
        ensures
            r@.len() == self.grid_rows(),
            forall|i: int| 0 <= i < r@.len() ==> (#[trigger] r@[i])@.len() == self.grid_cols(),
    ;

    /// For every cell, a human-readable debug token, or `None` if the cell
    /// was never reached. Diagnostic only.
    fn get_state(&self) -> (r: Vec<Vec<Option<String>>>)
        requires
            self.wf(),
        ensures
            r@.len() == self.grid_rows(),
            forall|i: int| 0 <= i < r@.len() ==> (#[trigger] r@[i])@.len() == self.grid_cols(),
    ;

    /// Releases all search-scoped state; safe to call repeatedly.
    fn deinit(&mut self)
        ensures
            final(self).wf(),
            final(self).grid_rows() == 0,
            final(self).grid_cols() == 0,
    ;
}

} // verus!

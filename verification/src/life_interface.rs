//! What every cell and every board offers, and how a board reports failure.

use crate::rules::{alive_at, generation_after, neighbor_count, next_alive, step};
use vstd::prelude::*;

verus! {

/// Why a board could not be built or advanced.
#[derive(Debug)]
pub enum LifeBoardError {
    /// The matrix handed to a constructor is no rectangle of at least one
    /// cell; the message says which condition failed.
    InvalidBoard(String),
    /// A partition's result was missing, repeated or of the wrong shape when
    /// a generation was assembled; the message says which.
    WorkerFailure(String),
}

/// A cell of the automaton: it is alive or dead, and can hand out a live or a
/// dead copy of itself. Whatever else a cell carries is of no concern to the
/// boards.
pub trait LifeCell: Sized {
    /// Whether the cell is alive.
    spec fn alive_spec(&self) -> bool;

    fn is_alive(&self) -> (alive: bool)
        ensures
            alive == self.alive_spec(),
    ;

    fn to_alive(&self) -> (cell: Self)
        ensures
            cell.alive_spec(),
    ;

    fn to_dead(&self) -> (cell: Self)
        ensures
            !cell.alive_spec(),
    ;
}

/// A board that holds one generation and can be advanced in place.
///
/// `generation` is the grid the board holds: `generation()[x][y]` is the
/// liveness of the cell at column `x`, row `y`.
pub trait LifeBoard<T: LifeCell + PartialEq + Clone>: PartialEq + Clone {
    /// The generation the board holds.
    spec fn generation(&self) -> Seq<Seq<bool>>;

    /// The number of columns.
    fn width(&self) -> (w: usize)
        ensures
            w == self.generation().len(),
    ;

    /// The number of rows.
    fn height(&self) -> (h: usize)
        ensures
            h == self.generation()[0].len(),
    ;

    /// Replaces the generation by the next one.
    fn simulate(&mut self)
        ensures
            final(self).generation() == step(old(self).generation()),
    ;

    /// Advances the board by `n` generations, as `n` calls of `simulate` do.
    fn simulate_n_steps(&mut self, n: usize)
        ensures
            final(self).generation() == generation_after(old(self).generation(), n as nat),
    ;

    /// The cell that stands at `(x, y)` in the next generation, or `None`
    /// where the board has no cell.
    fn next_cell_state_at(&self, x: usize, y: usize) -> (r: Option<T>)
        ensures
            match r {
                Some(cell) => alive_at(self.generation(), x as int, y as int) is Some
                    && cell.alive_spec() == next_alive(self.generation(), x as int, y as int),
                None => alive_at(self.generation(), x as int, y as int) is None,
            },
    ;

    /// The cell at `(x, y)`, or `None` where the board has no cell.
    fn cell_at(&self, x: usize, y: usize) -> (r: Option<T>)
        ensures
            match r {
                Some(cell) => alive_at(self.generation(), x as int, y as int) == Some(
                    cell.alive_spec(),
                ),
                None => alive_at(self.generation(), x as int, y as int) is None,
            },
    ;

    /// The number of live cells among the eight positions around `(x, y)`.
    fn num_alive_neighbors_at(&self, x: usize, y: usize) -> (neighbors: u8)
        ensures
            neighbors == neighbor_count(self.generation(), x as int, y as int),
    ;

    /// Whether the cell at `(x, y)` is alive, or `None` where the board has
    /// no cell.
    fn is_cell_alive(&self, x: usize, y: usize) -> (r: Option<bool>)
        ensures
            r == alive_at(self.generation(), x as int, y as int),
    ;

    /// A copy of the cells, column by column.
    fn to_vec_matrix(&self) -> (matrix: Vec<Vec<T>>)
        ensures
            matrix@.len() == self.generation().len(),
            forall|x: int|
                0 <= x < matrix@.len() ==> (#[trigger] matrix@[x])@.len()
                    == self.generation()[x].len(),
            forall|x: int, y: int|
                0 <= x < matrix@.len() && 0 <= y < matrix@[x]@.len() ==> (
                #[trigger] matrix@[x]@[y]).alive_spec() == self.generation()[x][y],
    ;
}

} // verus!

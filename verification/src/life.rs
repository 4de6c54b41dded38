//! The cell and the grid of cells.

use crate::life_interface::{LifeBoardError, LifeCell};
use crate::partition::step_slice;
use crate::rules::{
    alive_at, generation_after, grid_height, grid_width, is_grid, lemma_step_keeps_shape, live,
    neighbor_count, next_alive, next_column, step,
};
use crate::text::{grid_text, push_cell, row_end, row_text, rows_text};
use rand::Rng;
use std::ops::Range;
use vstd::prelude::*;
use vstd::std_specs::cmp::PartialEqSpecImpl;
use vstd::string::StringExecFns;

verus! {

/// A cell: alive or dead.
#[derive(Debug, Clone, Copy, PartialEq, Eq, Structural)]
pub struct Cell {
    pub alive: bool,
}

/// Flips a fair coin: `rand::Rng::gen_ratio(1, 2)` on the generator of the
/// calling thread. Nothing is claimed of the outcome.
#[verifier::external_body]
fn coin_flip() -> (heads: bool) {
    rand::thread_rng().gen_ratio(1, 2)
}

impl Cell {
    /// A cell that is alive or dead by the flip of a fair coin.
    pub fn gen() -> (cell: Cell) {
        Cell::new(coin_flip())
    }

    /// A cell with the given liveness.
    pub fn new(alive: bool) -> (cell: Cell)
        ensures
            cell.alive == alive,
    {
        Cell { alive }
    }
}

impl LifeCell for Cell {
    open spec fn alive_spec(&self) -> bool {
        self.alive
    }

    fn is_alive(&self) -> (alive: bool) {
        self.alive
    }

    fn to_alive(&self) -> (cell: Cell)
        ensures
            cell == (Cell { alive: true }),
    {
        Cell { alive: true }
    }

    fn to_dead(&self) -> (cell: Cell)
        ensures
            cell == (Cell { alive: false }),
    {
        Cell { alive: false }
    }
}

/// The liveness flags of a column of cells.
pub open spec fn column_liveness(column: Seq<Cell>) -> Seq<bool> {
    Seq::new(column.len(), |y: int| column[y].alive)
}

/// The liveness flags of a matrix of cells, column by column.
pub open spec fn liveness(cells: Seq<Vec<Cell>>) -> Seq<Seq<bool>> {
    Seq::new(cells.len(), |x: int| column_liveness(cells[x]@))
}

/// What is said of a matrix without a column.
pub open spec fn too_narrow_message() -> Seq<char> {
    "Board must be at least one cell wide."@
}

/// What is said of a matrix whose first column is empty.
pub open spec fn too_short_message() -> Seq<char> {
    "Board must be at least one cell tall."@
}

/// What is said of a matrix whose columns differ in length.
pub open spec fn jagged_message() -> Seq<char> {
    "Board must have columns of consistent size."@
}

/// The message with which a matrix is refused, or `None` for a grid. An empty
/// matrix is too narrow; else an empty first column makes it too short; else
/// a column that differs in length from the first makes it jagged.
pub open spec fn shape_error(g: Seq<Seq<bool>>) -> Option<Seq<char>> {
    if g.len() == 0 {
        Some(too_narrow_message())
    } else if g[0].len() == 0 {
        Some(too_short_message())
    } else if exists|x: int| 0 <= x < g.len() && #[trigger] g[x].len() != g[0].len() {
        Some(jagged_message())
    } else {
        None
    }
}

/// A matrix is refused exactly when it is no grid.
pub proof fn lemma_shape_error_iff_not_grid(g: Seq<Seq<bool>>)
    ensures
        shape_error(g) is None <==> is_grid(g),
{
}

/// A matrix of `width` columns of `height` cells each, with at least one
/// column and one row, is not refused, and the grid built from it has that
/// width and that height.
pub proof fn lemma_rectangle_keeps_its_shape(g: Seq<Seq<bool>>, width: nat, height: nat)
    requires
        width >= 1,
        height >= 1,
        g.len() == width,
        forall|x: int| 0 <= x < width ==> (#[trigger] g[x]).len() == height,
    ensures
        shape_error(g) is None,
        grid_width(g) == width,
        grid_height(g) == height,
{
}

/// The live cells among the first `k` positions of the block of three columns
/// and three rows centred on `(x, y)`, taken column by column. The centre
/// itself is never counted.
spec fn block_count(g: Seq<Seq<bool>>, x: int, y: int, k: nat) -> nat
    decreases k,
{
    if k == 0 {
        0
    } else {
        let i = k - 1;
        block_count(g, x, y, i as nat) + if i == 4 {
            0
        } else {
            live(g, x - 1 + i / 3, y - 1 + i % 3)
        }
    }
}

proof fn lemma_block_count_is_neighbor_count(g: Seq<Seq<bool>>, x: int, y: int)
    ensures
        block_count(g, x, y, 9) == neighbor_count(g, x, y),
{
    reveal_with_fuel(block_count, 10);
}

/// One generation: a rectangular grid of cells that never changes once built.
#[derive(Debug)]
pub struct LifeBoard {
    grid: Vec<Vec<Cell>>,
    width: usize,
    height: usize,
}

impl View for LifeBoard {
    type V = Seq<Seq<bool>>;

    closed spec fn view(&self) -> Seq<Seq<bool>> {
        liveness(self.grid@)
    }
}

impl LifeBoard {
    #[verifier::type_invariant]
    spec fn well_formed(&self) -> bool {
        &&& is_grid(self@)
        &&& self.width == self.grid@.len()
        &&& self.height == self.grid@[0]@.len()
    }

    /// Builds a board from a matrix of cells given column by column, or says
    /// why the matrix is no grid.
    pub fn new(grid: Vec<Vec<Cell>>) -> (r: Result<LifeBoard, LifeBoardError>)
        ensures
            match r {
                Ok(board) => shape_error(liveness(grid@)) is None && board@ == liveness(grid@),
                Err(LifeBoardError::InvalidBoard(msg)) => shape_error(liveness(grid@)) == Some(
                    msg@,
                ),
                Err(_) => false,
            },
    {
        let width = grid.len();
        if width == 0 {
            return Err(
                LifeBoardError::InvalidBoard("Board must be at least one cell wide.".to_owned()),
            );
        }
        let height = grid[0].len();
        if height == 0 {
            return Err(
                LifeBoardError::InvalidBoard("Board must be at least one cell tall.".to_owned()),
            );
        }
        let mut x: usize = 0;
        while x < width
            invariant
                width == grid@.len(),
                height == grid@[0]@.len(),
                height >= 1,
                x <= width,
                forall|i: int| 0 <= i < x ==> #[trigger] grid@[i]@.len() == height,
            decreases width - x,
        {
            if grid[x].len() != height {
                assert(liveness(grid@)[x as int].len() != liveness(grid@)[0].len());
                return Err(
                    LifeBoardError::InvalidBoard(
                        "Board must have columns of consistent size.".to_owned(),
                    ),
                );
            }
            x += 1;
        }
        Ok(LifeBoard { grid, width, height })
    }

    /// The number of columns.
    pub fn width(&self) -> (w: usize)
        ensures
            is_grid(self@),
            w == grid_width(self@),
    {
        proof {
            use_type_invariant(self);
        }
        self.width
    }

    /// The number of rows.
    pub fn height(&self) -> (h: usize)
        ensures
            is_grid(self@),
            h == grid_height(self@),
    {
        proof {
            use_type_invariant(self);
        }
        self.height
    }

    /// The cell at `(x, y)`, or `None` where the board has no cell: left of
    /// it or above it, right of it or below it. Coordinates of every integer
    /// type widen to `i128` without loss.
    pub fn get(&self, x: i128, y: i128) -> (r: Option<&Cell>)
        ensures
            match r {
                Some(cell) => alive_at(self@, x as int, y as int) == Some(cell.alive),
                None => alive_at(self@, x as int, y as int) is None,
            },
    {
        proof {
            use_type_invariant(self);
        }
        if x < 0 || y < 0 {
            return None;
        }
        if x >= self.width as i128 || y >= self.height as i128 {
            return None;
        }
        Some(&self.grid[x as usize][y as usize])
    }

    /// The liveness of the cell at `(x, y)`, for coordinates of any size.
    fn alive_at_wide(&self, x: i128, y: i128) -> (r: Option<bool>)
        ensures
            r == alive_at(self@, x as int, y as int),
    {
        match self.get(x, y) {
            Some(cell) => Some(cell.is_alive()),
            None => None,
        }
    }

    /// Whether the cell at `(x, y)` is alive, or `None` where the board has
    /// no cell: left of it or above it, right of it or below it.
    pub fn is_cell_alive(&self, x: i64, y: i64) -> (r: Option<bool>)
        ensures
            r == alive_at(self@, x as int, y as int),
    {
        self.alive_at_wide(x as i128, y as i128)
    }

    /// The cell at `(x, y)`.
    pub fn cell_at(&self, x: usize, y: usize) -> (cell: &Cell)
        requires
            x < grid_width(self@),
            y < grid_height(self@),
        ensures
            cell.alive == self@[x as int][y as int],
    {
        proof {
            use_type_invariant(self);
            assert(self@[x as int].len() == self@[0].len());
        }
        &self.grid[x][y]
    }

    /// The number of live cells among the eight positions around `(x, y)`.
    /// Positions outside the board count as dead; `(x, y)` itself may lie
    /// outside it.
    pub fn get_num_alive_neighbors(&self, x: usize, y: usize) -> (neighbors: u8)
        ensures
            neighbors == neighbor_count(self@, x as int, y as int),
            neighbors <= 8,
    {
        let mut neighbors: u8 = 0;
        let mut dx: i128 = 0;
        while dx < 3
            invariant
                0 <= dx <= 3,
                neighbors == block_count(self@, x as int, y as int, (3 * dx) as nat),
                neighbors <= 3 * dx,
            decreases 3 - dx,
        {
            let mut dy: i128 = 0;
            while dy < 3
                invariant
                    0 <= dx < 3,
                    0 <= dy <= 3,
                    neighbors == block_count(self@, x as int, y as int, (3 * dx + dy) as nat),
                    neighbors <= 3 * dx + dy,
                decreases 3 - dy,
            {
                if !(dx == 1 && dy == 1) {
                    let (x_test, y_test) = ((x as i128 - 1) + dx, (y as i128 - 1) + dy);
                    if let Some(is_alive) = self.alive_at_wide(x_test, y_test) {
                        if is_alive {
                            neighbors += 1;
                        }
                    }
                }
                dy += 1;
            }
            dx += 1;
        }
        proof {
            lemma_block_count_is_neighbor_count(self@, x as int, y as int);
        }
        neighbors
    }

    /// The cell that stands at `(x, y)` in the next generation.
    pub fn next_cell_state(&self, x: usize, y: usize) -> (cell: Cell)
        requires
            x < grid_width(self@),
            y < grid_height(self@),
        ensures
            cell.alive == next_alive(self@, x as int, y as int),
    {
        proof {
            use_type_invariant(self);
            assert(self@[x as int].len() == self@[0].len());
        }
        let neighbors = self.get_num_alive_neighbors(x, y);
        let old_cell = &self.grid[x][y];
        match neighbors {
            0..=1 if old_cell.is_alive() => old_cell.to_dead(),
            2..=3 if old_cell.is_alive() => old_cell.to_alive(),
            4..=8 if old_cell.is_alive() => old_cell.to_dead(),
            3 if !old_cell.is_alive() => old_cell.to_alive(),
            _ => old_cell.to_dead(),
        }
    }

    /// Wraps columns that are known to form a grid.
    pub(crate) fn from_columns(grid: Vec<Vec<Cell>>) -> (board: LifeBoard)
        requires
            is_grid(liveness(grid@)),
        ensures
            board@ == liveness(grid@),
    {
        let width = grid.len();
        let height = grid[0].len();
        LifeBoard { grid, width, height }
    }

    /// A board of the given shape in which every cell is alive or dead by
    /// the flip of a fair coin of its own.
    pub fn gen(width: usize, height: usize) -> (board: LifeBoard)
        requires
            width >= 1,
            height >= 1,
        ensures
            is_grid(board@),
            grid_width(board@) == width,
            grid_height(board@) == height,
    {
        let mut grid: Vec<Vec<Cell>> = Vec::with_capacity(width);
        let mut x: usize = 0;
        while x < width
            invariant
                x <= width,
                grid@.len() == x,
                forall|i: int| 0 <= i < x ==> (#[trigger] grid@[i])@.len() == height,
            decreases width - x,
        {
            let mut col: Vec<Cell> = Vec::with_capacity(height);
            let mut y: usize = 0;
            while y < height
                invariant
                    y <= height,
                    col@.len() == y,
                decreases height - y,
            {
                col.push(Cell::gen());
                y += 1;
            }
            grid.push(col);
            x += 1;
        }
        assert(is_grid(liveness(grid@))) by {
            assert forall|i: int| 0 <= i < liveness(grid@).len() implies (#[trigger] liveness(
                grid@,
            )[i]).len() == liveness(grid@)[0].len() by {
                assert(grid@[i]@.len() == height);
                assert(grid@[0]@.len() == height);
            }
        }
        LifeBoard { grid, width, height }
    }

    /// Column `x` of the next generation.
    fn next_column_cells(&self, x: usize) -> (column: Vec<Cell>)
        requires
            x < self@.len(),
        ensures
            column_liveness(column@) == next_column(self@, x as int),
    {
        proof {
            use_type_invariant(self);
            assert(self@[x as int].len() == self@[0].len());
        }
        let mut column: Vec<Cell> = Vec::with_capacity(self.height);
        let mut y: usize = 0;
        while y < self.height
            invariant
                x < self@.len(),
                self.height == self@[0].len(),
                y <= self.height,
                column@.len() == y,
                forall|j: int| 0 <= j < y ==> (#[trigger] column@[j]).alive == next_alive(
                    self@,
                    x as int,
                    j,
                ),
            decreases self.height - y,
        {
            column.push(self.next_cell_state(x, y));
            y += 1;
        }
        assert(column_liveness(column@) =~= next_column(self@, x as int));
        column
    }

    /// The columns `row_range.start .. row_range.end` of the next generation:
    /// the share of the worker that was given this range.
    pub fn simulate_slice(&self, row_range: Range<usize>) -> (slice: Vec<Vec<Cell>>)
        requires
            row_range.start <= row_range.end <= self@.len(),
        ensures
            liveness(slice@) == step_slice(self@, row_range.start as int, row_range.end as int),
    {
        let mut slice: Vec<Vec<Cell>> = Vec::with_capacity(row_range.end - row_range.start);
        let mut x: usize = row_range.start;
        while x < row_range.end
            invariant
                row_range.start <= x <= row_range.end <= self@.len(),
                slice@.len() == x - row_range.start,
                forall|i: int|
                    0 <= i < slice@.len() ==> column_liveness((#[trigger] slice@[i])@)
                        == next_column(self@, row_range.start + i),
            decreases row_range.end - x,
        {
            let column = self.next_column_cells(x);
            slice.push(column);
            x += 1;
        }
        assert(liveness(slice@) =~= step_slice(
            self@,
            row_range.start as int,
            row_range.end as int,
        ));
        slice
    }

    /// The next generation, as a new board; this one is left as it is.
    pub fn simulate(&self) -> (next: LifeBoard)
        ensures
            next@ == step(self@),
    {
        proof {
            use_type_invariant(self);
            lemma_step_keeps_shape(self@);
        }
        let new_grid = self.simulate_slice(0..self.width);
        assert(step_slice(self@, 0, self.width as int) =~= step(self@));
        LifeBoard { grid: new_grid, width: self.width, height: self.height }
    }

    /// The generation `steps` steps after this one, as a new board. With
    /// `steps == 0` that is a copy of this board.
    pub fn simulate_n_steps(&self, steps: u16) -> (board: LifeBoard)
        ensures
            board@ == generation_after(self@, steps as nat),
    {
        if steps == 0 {
            self.clone()
        } else {
            let mut board = self.simulate();
            let mut done: u16 = 1;
            assert(generation_after(self@, 1) == step(self@)) by {
                reveal_with_fuel(generation_after, 2);
            }
            while done < steps
                invariant
                    1 <= done <= steps,
                    board@ == generation_after(self@, done as nat),
                decreases steps - done,
            {
                board = board.simulate();
                done += 1;
            }
            board
        }
    }

    /// The board as text, row by row, with `alive_cell` for a live cell and
    /// `dead_cell` for a dead one; with `dbg`, each cell in brackets, its mark
    /// after `label` and followed by its column and its row.
    pub fn render(&self, alive_cell: &str, dead_cell: &str, dbg: bool, label: &str) -> (text:
        String)
        ensures
            text@ == grid_text(self@, alive_cell@, dead_cell@, dbg, label@),
    {
        proof {
            use_type_invariant(self);
        }
        let mut text = String::new();
        let mut col_idx: usize = 0;
        while col_idx < self.height
            invariant
                is_grid(self@),
                self.width == self@.len(),
                self.height == self@[0].len(),
                col_idx <= self.height,
                text@ == rows_text(
                    self@,
                    col_idx as nat,
                    alive_cell@,
                    dead_cell@,
                    dbg,
                    label@,
                ),
            decreases self.height - col_idx,
        {
            let ghost before = text@;
            let mut row_idx: usize = 0;
            while row_idx < self.width
                invariant
                    is_grid(self@),
                    self.width == self@.len(),
                    self.height == self@[0].len(),
                    col_idx < self.height,
                    row_idx <= self.width,
                    text@ == before + row_text(
                        self@,
                        col_idx as nat,
                        row_idx as nat,
                        alive_cell@,
                        dead_cell@,
                        dbg,
                        label@,
                    ),
                decreases self.width - row_idx,
            {
                let cell = self.cell_at(row_idx, col_idx);
                push_cell(
                    &mut text,
                    cell.is_alive(),
                    row_idx,
                    col_idx,
                    alive_cell,
                    dead_cell,
                    dbg,
                    label,
                );
                row_idx += 1;
                assert(text@ =~= before + row_text(
                    self@,
                    col_idx as nat,
                    row_idx as nat,
                    alive_cell@,
                    dead_cell@,
                    dbg,
                    label@,
                ));
            }
            if col_idx != self.width - 1 {
                text.append("\n");
            }
            assert(text@ =~= before + row_text(
                self@,
                col_idx as nat,
                self.width as nat,
                alive_cell@,
                dead_cell@,
                dbg,
                label@,
            ) + row_end(self@, col_idx as nat));
            col_idx += 1;
        }
        text
    }

    /// The board as text, row by row; with `dbg`, each cell as
    /// `(alv=MARK, COLUMN, ROW)`.
    pub fn grid_fmt(&self, alive_cell: &str, dead_cell: &str, dbg: bool) -> (text: String)
        ensures
            text@ == grid_text(self@, alive_cell@, dead_cell@, dbg, "alv="@),
    {
        self.render(alive_cell, dead_cell, dbg, "alv=")
    }

    /// The board for display: `*` for a live cell, a blank for a dead one.
    pub fn display_string(&self) -> (text: String)
        ensures
            text@ == grid_text(self@, "*"@, " "@, false, "alv="@),
    {
        self.grid_fmt("*", " ", false)
    }

    /// The board for inspection: `T` for a live cell, `F` for a dead one,
    /// each with its column and its row.
    pub fn debug_string(&self) -> (text: String)
        ensures
            text@ == grid_text(self@, "T"@, "F"@, true, "alv="@),
    {
        self.grid_fmt("T", "F", true)
    }

    /// The cells of the board, column by column.
    pub fn into_grid(self) -> (grid: Vec<Vec<Cell>>)
        ensures
            liveness(grid@) == self@,
    {
        self.grid
    }
}

impl Clone for LifeBoard {
    /// A board with the same cells.
    fn clone(&self) -> (copy: LifeBoard)
        ensures
            copy@ == self@,
    {
        proof {
            use_type_invariant(self);
        }
        let mut grid: Vec<Vec<Cell>> = Vec::with_capacity(self.width);
        let mut x: usize = 0;
        while x < self.width
            invariant
                self.width == self.grid@.len(),
                x <= self.width,
                grid@.len() == x,
                forall|i: int| 0 <= i < x ==> (#[trigger] grid@[i])@ == self.grid@[i]@,
            decreases self.width - x,
        {
            let column = self.grid[x].clone();
            assert(column@ =~= self.grid@[x as int]@);
            grid.push(column);
            x += 1;
        }
        assert(liveness(grid@) =~= liveness(self.grid@));
        LifeBoard { grid, width: self.width, height: self.height }
    }
}

impl PartialEq for LifeBoard {
    /// Whether the two boards have the same shape and the same live cells.
    fn eq(&self, other: &LifeBoard) -> (equal: bool) {
        proof {
            use_type_invariant(self);
            use_type_invariant(other);
        }
        if self.width != other.width || self.height != other.height {
            return false;
        }
        let mut x: usize = 0;
        while x < self.width
            invariant
                is_grid(self@),
                is_grid(other@),
                self.width == self.grid@.len(),
                self.width == other.grid@.len(),
                self.height == self.grid@[0]@.len(),
                self.height == other.grid@[0]@.len(),
                x <= self.width,
                forall|i: int| 0 <= i < x ==> (#[trigger] self@[i]) == other@[i],
            decreases self.width - x,
        {
            assert(self@[x as int].len() == self@[0].len());
            assert(other@[x as int].len() == other@[0].len());
            let mut y: usize = 0;
            while y < self.height
                invariant
                    x < self.width,
                    self.width == self.grid@.len(),
                    self.width == other.grid@.len(),
                    self.height == self.grid@[x as int]@.len(),
                    self.height == other.grid@[x as int]@.len(),
                    y <= self.height,
                    forall|j: int|
                        0 <= j < y ==> (#[trigger] self.grid@[x as int]@[j]).alive
                            == other.grid@[x as int]@[j].alive,
                decreases self.height - y,
            {
                if self.grid[x][y].alive != other.grid[x][y].alive {
                    assert(self@[x as int][y as int] != other@[x as int][y as int]);
                    return false;
                }
                y += 1;
            }
            assert(self@[x as int] =~= other@[x as int]);
            x += 1;
        }
        assert(self@ =~= other@);
        true
    }
}

impl PartialEqSpecImpl for LifeBoard {
    open spec fn obeys_eq_spec() -> bool {
        true
    }

    open spec fn eq_spec(&self, other: &LifeBoard) -> bool {
        self@ == other@
    }
}

} // verus!

//! The two engines: one that advances its board on the calling thread, and
//! one that deals the columns out to a fixed number of workers.

use crate::life;
use crate::life::{liveness, shape_error, Cell};
use crate::life_interface::{LifeBoard, LifeBoardError, LifeCell};
use crate::partition::{
    deliveries_are_slices, deliveries_fit, delivered, delivery_fits, holds_deliveries,
    is_partition, is_plan, lemma_assembly_is_in_range_order, lemma_deliveries_assemble_step, lemma_partition_covers_each_column_once,
    lemma_partition_is_bounded, lemma_partition_is_disjoint, lemma_plan_is_partition,
    lemma_partitioned_step_is_step, lemma_slices_fit, partitioned_generation_after,
    partitioned_step, range_end, range_start, slices_in_range_order, step_slice,
};
use crate::rules::{alive_at, generation_after, is_grid, step};
use crate::text::grid_text;
use std::ops::Range;
use std::sync::Arc;
use vstd::prelude::*;
use vstd::std_specs::cmp::PartialEqSpecImpl;

verus! {

/// The liveness flags of a matrix of flags, column by column.
pub open spec fn flags(matrix: Seq<Vec<bool>>) -> Seq<Seq<bool>> {
    Seq::new(matrix.len(), |x: int| matrix[x]@)
}

/// Turns a matrix of liveness flags into a matrix of cells.
fn cells_of(matrix: Vec<Vec<bool>>) -> (grid: Vec<Vec<Cell>>)
    ensures
        liveness(grid@) == flags(matrix@),
{
    let mut grid: Vec<Vec<Cell>> = Vec::with_capacity(matrix.len());
    let mut x: usize = 0;
    while x < matrix.len()
        invariant
            x <= matrix@.len(),
            grid@.len() == x,
            forall|i: int|
                0 <= i < x ==> crate::life::column_liveness((#[trigger] grid@[i])@) == matrix@[i]@,
        decreases matrix@.len() - x,
    {
        let mut column: Vec<Cell> = Vec::with_capacity(matrix[x].len());
        let mut y: usize = 0;
        while y < matrix[x].len()
            invariant
                x < matrix@.len(),
                y <= matrix@[x as int]@.len(),
                column@.len() == y,
                forall|j: int|
                    0 <= j < y ==> (#[trigger] column@[j]).alive == matrix@[x as int]@[j],
            decreases matrix@[x as int]@.len() - y,
        {
            column.push(Cell::new(matrix[x][y]));
            y += 1;
        }
        assert(crate::life::column_liveness(column@) =~= matrix@[x as int]@);
        grid.push(column);
        x += 1;
    }
    assert(liveness(grid@) =~= flags(matrix@));
    grid
}

/// The sequential engine: it holds one generation and replaces it by the
/// next on the calling thread.
#[derive(Debug)]
pub struct BaseLifeBoard {
    board: life::LifeBoard,
}

impl View for BaseLifeBoard {
    type V = Seq<Seq<bool>>;

    closed spec fn view(&self) -> Seq<Seq<bool>> {
        self.board@
    }
}

impl BaseLifeBoard {
    /// Builds a board from a matrix of liveness flags given column by column,
    /// or says why the matrix is no grid.
    pub fn from_bool_matrix(collection: Vec<Vec<bool>>) -> (r: Result<
        BaseLifeBoard,
        LifeBoardError,
    >)
        ensures
            match r {
                Ok(board) => shape_error(flags(collection@)) is None && board@ == flags(
                    collection@,
                ),
                Err(LifeBoardError::InvalidBoard(msg)) => shape_error(flags(collection@)) == Some(
                    msg@,
                ),
                Err(_) => false,
            },
    {
        BaseLifeBoard::_from_grid(cells_of(collection))
    }

    /// Builds a board from a matrix of cells given column by column, or says
    /// why the matrix is no grid.
    pub fn from_cell_matrix(collection: Vec<Vec<Cell>>) -> (r: Result<
        BaseLifeBoard,
        LifeBoardError,
    >)
        ensures
            match r {
                Ok(board) => shape_error(liveness(collection@)) is None && board@ == liveness(
                    collection@,
                ),
                Err(LifeBoardError::InvalidBoard(msg)) => shape_error(liveness(collection@))
                    == Some(msg@),
                Err(_) => false,
            },
    {
        BaseLifeBoard::_from_grid(collection)
    }

    /// Builds a board from a matrix of cells given column by column, or says
    /// why the matrix is no grid.
    pub fn _from_grid(grid: Vec<Vec<Cell>>) -> (r: Result<BaseLifeBoard, LifeBoardError>)
        ensures
            match r {
                Ok(board) => shape_error(liveness(grid@)) is None && board@ == liveness(grid@),
                Err(LifeBoardError::InvalidBoard(msg)) => shape_error(liveness(grid@)) == Some(
                    msg@,
                ),
                Err(_) => false,
            },
    {
        match life::LifeBoard::new(grid) {
            Ok(board) => Ok(BaseLifeBoard { board }),
            Err(error) => Err(error),
        }
    }

    /// A board of the given shape in which every cell is alive or dead by
    /// the flip of a fair coin of its own.
    pub fn gen(width: usize, height: usize) -> (board: BaseLifeBoard)
        requires
            width >= 1,
            height >= 1,
        ensures
            is_grid(board@),
            board@.len() == width,
            board@[0].len() == height,
    {
        BaseLifeBoard { board: life::LifeBoard::gen(width, height) }
    }

    /// Whether the cell at `(x, y)` is alive, or `None` where the board has
    /// no cell.
    pub fn _is_cell_alive(&self, x: i64, y: i64) -> (r: Option<bool>)
        ensures
            r == alive_at(self@, x as int, y as int),
    {
        match self._cell_at(x, y) {
            Some(cell) => Some(cell.is_alive()),
            None => None,
        }
    }

    /// The cell at `(x, y)`, or `None` where the board has no cell.
    pub fn _cell_at(&self, x: i64, y: i64) -> (r: Option<Cell>)
        ensures
            match r {
                Some(cell) => alive_at(self@, x as int, y as int) == Some(cell.alive),
                None => alive_at(self@, x as int, y as int) is None,
            },
    {
        match self.board.get(x as i128, y as i128) {
            Some(cell) => Some(*cell),
            None => None,
        }
    }

    /// The board as text, row by row; with `dbg`, each cell as
    /// `(MARK, COLUMN, ROW)`.
    pub fn _board_fmt(&self, alive_cell: &str, dead_cell: &str, dbg: bool) -> (text: String)
        ensures
            text@ == grid_text(self@, alive_cell@, dead_cell@, dbg, ""@),
    {
        self.board.render(alive_cell, dead_cell, dbg, "")
    }

    /// The board for display: `*` for a live cell, a blank for a dead one.
    pub fn display_string(&self) -> (text: String)
        ensures
            text@ == grid_text(self@, "*"@, " "@, false, ""@),
    {
        self._board_fmt("*", " ", false)
    }

    /// The board for inspection: `T` for a live cell, `F` for a dead one,
    /// each with its column and its row.
    pub fn debug_string(&self) -> (text: String)
        ensures
            text@ == grid_text(self@, "T"@, "F"@, true, ""@),
    {
        self._board_fmt("T", "F", true)
    }

    /// The cells of the board, column by column.
    pub fn into_vec_matrix(self) -> (matrix: Vec<Vec<Cell>>)
        ensures
            liveness(matrix@) == self@,
    {
        self.board.into_grid()
    }
}

impl LifeBoard<Cell> for BaseLifeBoard {
    open spec fn generation(&self) -> Seq<Seq<bool>> {
        self@
    }

    fn width(&self) -> (w: usize) {
        self.board.width()
    }

    fn height(&self) -> (h: usize) {
        self.board.height()
    }

    fn simulate(&mut self) {
        self.board = self.board.simulate();
    }

    fn simulate_n_steps(&mut self, n: usize) {
        let mut done: usize = 0;
        while done < n
            invariant
                done <= n,
                self@ == generation_after(old(self)@, done as nat),
            decreases n - done,
        {
            self.simulate();
            done += 1;
        }
    }

    fn next_cell_state_at(&self, x: usize, y: usize) -> (r: Option<Cell>) {
        let width = self.board.width();
        let height = self.board.height();
        if x < width && y < height {
            Some(self.board.next_cell_state(x, y))
        } else {
            None
        }
    }

    fn cell_at(&self, x: usize, y: usize) -> (r: Option<Cell>) {
        match self.board.get(x as i128, y as i128) {
            Some(cell) => Some(*cell),
            None => None,
        }
    }

    fn num_alive_neighbors_at(&self, x: usize, y: usize) -> (neighbors: u8) {
        self.board.get_num_alive_neighbors(x, y)
    }

    fn is_cell_alive(&self, x: usize, y: usize) -> (r: Option<bool>) {
        match self.board.get(x as i128, y as i128) {
            Some(cell) => Some(cell.is_alive()),
            None => None,
        }
    }

    fn to_vec_matrix(&self) -> (matrix: Vec<Vec<Cell>>) {
        let matrix = self.board.clone().into_grid();
        assert(liveness(matrix@) == self@);
        assert forall|x: int| 0 <= x < matrix@.len() implies (#[trigger] matrix@[x])@.len()
            == self@[x].len() by {
            assert(liveness(matrix@)[x].len() == matrix@[x]@.len());
        }
        assert forall|x: int, y: int|
            0 <= x < matrix@.len() && 0 <= y < matrix@[x]@.len() implies (
        #[trigger] matrix@[x]@[y]).alive_spec() == self@[x][y] by {
            assert(liveness(matrix@)[x][y] == matrix@[x]@[y].alive);
        }
        matrix
    }
}

impl Clone for BaseLifeBoard {
    /// A board that holds the same generation.
    fn clone(&self) -> (copy: BaseLifeBoard)
        ensures
            copy@ == self@,
    {
        BaseLifeBoard { board: self.board.clone() }
    }
}

impl PartialEq for BaseLifeBoard {
    /// Whether the two boards hold the same generation.
    fn eq(&self, other: &BaseLifeBoard) -> (equal: bool) {
        self.board.eq(&other.board)
    }
}

impl PartialEqSpecImpl for BaseLifeBoard {
    open spec fn obeys_eq_spec() -> bool {
        true
    }

    open spec fn eq_spec(&self, other: &BaseLifeBoard) -> bool {
        self@ == other@
    }
}

/// What is said when the deliveries do not fit the plan.
pub open spec fn worker_failure_message() -> Seq<char> {
    "Every worker must deliver its slice of the board once."@
}

/// What the workers handed back, as the model sees it: for each delivery the
/// liveness flags of the slice and the number of the worker.
pub open spec fn deliveries(results: Seq<(Vec<Vec<Cell>>, usize)>) -> Seq<(Seq<Seq<bool>>, int)> {
    Seq::new(results.len(), |j: int| (liveness(results[j].0@), results[j].1 as int))
}

/// Whether `grid` holds the columns of `slice` from column `start` on, each
/// of the given height.
spec fn holds_slice(grid: Seq<Vec<Cell>>, slice: Seq<Vec<Cell>>, start: int, height: int) -> bool {
    forall|k: int|
        0 <= k < slice.len() ==> grid[start + k] == #[trigger] slice[k] && slice[k]@.len()
            == height
}

/// What is known of worker `i` while deliveries are taken in: if `owner` is
/// not negative it is the delivery of this worker, which has been taken in
/// and whose columns stand in `grid`.
spec fn worker_settled(
    all: Seq<(Vec<Vec<Cell>>, usize)>,
    ranges: Seq<Range<usize>>,
    grid: Seq<Vec<Cell>>,
    height: int,
    pending: int,
    i: int,
    owner: int,
) -> bool {
    owner >= 0 ==> {
        &&& pending <= owner < all.len()
        &&& all[owner].1 == i
        &&& all[owner].0@.len() == ranges[i].end - ranges[i].start
        &&& holds_slice(grid, all[owner].0@, ranges[i].start as int, height)
    }
}

/// What holds while deliveries are taken in from the back of `all`, with
/// `pending` of them still to come: `seen` marks the workers that have one
/// taken in, each of those is settled, and each delivery taken in belongs to
/// the worker that it names.
spec fn intake(
    all: Seq<(Vec<Vec<Cell>>, usize)>,
    ranges: Seq<Range<usize>>,
    grid: Seq<Vec<Cell>>,
    height: int,
    pending: int,
    seen: Seq<bool>,
    owner: Seq<int>,
) -> bool {
    &&& seen.len() == ranges.len()
    &&& owner.len() == ranges.len()
    &&& forall|i: int| 0 <= i < ranges.len() ==> (#[trigger] seen[i] <==> owner[i] >= 0)
    &&& forall|i: int|
        0 <= i < ranges.len() ==> worker_settled(
            all,
            ranges,
            grid,
            height,
            pending,
            i,
            #[trigger] owner[i],
        )
    &&& forall|j: int|
        pending <= j < all.len() ==> (#[trigger] all[j]).1 < ranges.len() && owner[all[j].1 as int]
            == j
}

/// Another handle to the board behind `board`: `Arc::clone`, which copies the
/// pointer and leaves the board where it is.
#[verifier::external_body]
fn share(board: &Arc<life::LifeBoard>) -> (handle: Arc<life::LifeBoard>)
    ensures
        handle == *board,
{
    Arc::clone(board)
}

/// The partitioned engine: it holds one generation behind a shared read-only
/// handle, and a plan that deals the columns of the board out to a fixed
/// number of workers. A generation is never changed once built; advancing
/// the board replaces the handle.
#[derive(Debug)]
pub struct ParallelLifeBoard {
    board: Arc<life::LifeBoard>,
    nthreads: usize,
    thread_row_ranges: Vec<Range<usize>>,
}

impl View for ParallelLifeBoard {
    type V = Seq<Seq<bool>>;

    closed spec fn view(&self) -> Seq<Seq<bool>> {
        self.board@
    }
}

impl ParallelLifeBoard {
    #[verifier::type_invariant]
    spec fn well_formed(&self) -> bool {
        &&& self.nthreads >= 1
        &&& is_grid(self.board@)
        &&& is_plan(self.thread_row_ranges@, self.board@.len(), self.nthreads as nat)
    }

    /// The number of workers.
    pub closed spec fn workers(&self) -> nat {
        self.nthreads as nat
    }

    /// The range of columns of each worker.
    pub closed spec fn plan(&self) -> Seq<Range<usize>> {
        self.thread_row_ranges@
    }

    /// The plan for `nthreads` workers over `width` columns: every worker
    /// but the last gets `width / nthreads` columns, the last gets the rest.
    pub fn row_ranges(width: usize, nthreads: usize) -> (ranges: Vec<Range<usize>>)
        requires
            nthreads >= 1,
        ensures
            is_plan(ranges@, width as nat, nthreads as nat),
            is_partition(ranges@, width as nat),
    {
        let slice_size = width / nthreads;
        let mut cur_left_col: usize = 0;
        let mut ranges: Vec<Range<usize>> = Vec::with_capacity(nthreads);
        let mut thread_idx: usize = 0;
        while thread_idx < nthreads
            invariant
                nthreads >= 1,
                slice_size == width / nthreads,
                thread_idx <= nthreads,
                ranges@.len() == thread_idx,
                thread_idx < nthreads ==> cur_left_col == range_start(
                    width as nat,
                    nthreads as nat,
                    thread_idx as nat,
                ),
                forall|i: int|
                    0 <= i < thread_idx ==> (#[trigger] ranges@[i]).start == range_start(
                        width as nat,
                        nthreads as nat,
                        i as nat,
                    ) && ranges@[i].end == range_end(width as nat, nthreads as nat, i as nat),
            decreases nthreads - thread_idx,
        {
            proof {
                lemma_slices_fit(width as nat, nthreads as nat, thread_idx as nat);
                lemma_slices_fit(width as nat, nthreads as nat, (thread_idx + 1) as nat);
            }
            if thread_idx + 1 == nthreads {
                ranges.push(cur_left_col..width);
            } else {
                ranges.push(cur_left_col..cur_left_col + slice_size);
                cur_left_col += slice_size;
            }
            thread_idx += 1;
        }
        proof {
            lemma_plan_is_partition(ranges@, width as nat, nthreads as nat);
        }
        ranges
    }

    /// An engine for `board` with `nthreads` workers.
    pub fn from(board: life::LifeBoard, nthreads: u8) -> (engine: ParallelLifeBoard)
        requires
            nthreads >= 1,
        ensures
            engine@ == board@,
            engine.workers() == nthreads,
            is_plan(engine.plan(), board@.len(), nthreads as nat),
    {
        let thread_row_ranges = ParallelLifeBoard::row_ranges(board.width(), nthreads as usize);
        ParallelLifeBoard { thread_row_ranges, board: Arc::new(board), nthreads: nthreads as usize }
    }

    /// An engine with `nthreads` workers for a board of the given shape in
    /// which every cell is alive or dead by the flip of a fair coin of its
    /// own.
    pub fn gen(width: usize, height: usize, nthreads: u8) -> (engine: ParallelLifeBoard)
        requires
            width >= 1,
            height >= 1,
            nthreads >= 1,
        ensures
            is_grid(engine@),
            engine@.len() == width,
            engine@[0].len() == height,
            engine.workers() == nthreads,
            is_plan(engine.plan(), width as nat, nthreads as nat),
    {
        ParallelLifeBoard::from(life::LifeBoard::gen(width, height), nthreads)
    }

    /// An engine with `nthreads` workers for the board given as a matrix of
    /// liveness flags, column by column; or why the matrix is no grid.
    pub fn from_grid(collection: Vec<Vec<bool>>, nthreads: u8) -> (r: Result<
        ParallelLifeBoard,
        LifeBoardError,
    >)
        requires
            nthreads >= 1,
        ensures
            match r {
                Ok(engine) => {
                    &&& shape_error(flags(collection@)) is None
                    &&& engine@ == flags(collection@)
                    &&& engine.workers() == nthreads
                    &&& is_plan(engine.plan(), engine@.len(), nthreads as nat)
                },
                Err(LifeBoardError::InvalidBoard(msg)) => shape_error(flags(collection@)) == Some(
                    msg@,
                ),
                Err(_) => false,
            },
    {
        ParallelLifeBoard::_from_grid(cells_of(collection), nthreads)
    }

    /// An engine with `nthreads` workers for the board given as a matrix of
    /// liveness flags, column by column; or why the matrix is no grid.
    pub fn from_matrix(collection: Vec<Vec<bool>>, n_threads: u8) -> (r: Result<
        ParallelLifeBoard,
        LifeBoardError,
    >)
        requires
            n_threads >= 1,
        ensures
            match r {
                Ok(engine) => {
                    &&& shape_error(flags(collection@)) is None
                    &&& engine@ == flags(collection@)
                    &&& engine.workers() == n_threads
                    &&& is_plan(engine.plan(), engine@.len(), n_threads as nat)
                },
                Err(LifeBoardError::InvalidBoard(msg)) => shape_error(flags(collection@)) == Some(
                    msg@,
                ),
                Err(_) => false,
            },
    {
        ParallelLifeBoard::from_grid(collection, n_threads)
    }

    /// An engine with `n_threads` workers that takes over the generation of
    /// a sequential engine.
    pub fn from_board(board: BaseLifeBoard, n_threads: u8) -> (engine: ParallelLifeBoard)
        requires
            n_threads >= 1,
        ensures
            engine@ == board@,
            engine.workers() == n_threads,
            is_plan(engine.plan(), board@.len(), n_threads as nat),
    {
        ParallelLifeBoard::from(board.board, n_threads)
    }

    /// An engine with `n_threads` workers for the board given as a matrix of
    /// cells, column by column; or why the matrix is no grid.
    pub fn _from_grid(grid: Vec<Vec<Cell>>, n_threads: u8) -> (r: Result<
        ParallelLifeBoard,
        LifeBoardError,
    >)
        requires
            n_threads >= 1,
        ensures
            match r {
                Ok(engine) => {
                    &&& shape_error(liveness(grid@)) is None
                    &&& engine@ == liveness(grid@)
                    &&& engine.workers() == n_threads
                    &&& is_plan(engine.plan(), engine@.len(), n_threads as nat)
                },
                Err(LifeBoardError::InvalidBoard(msg)) => shape_error(liveness(grid@)) == Some(
                    msg@,
                ),
                Err(_) => false,
            },
    {
        match life::LifeBoard::new(grid) {
            Ok(board) => Ok(ParallelLifeBoard::from(board, n_threads)),
            Err(error) => Err(error),
        }
    }

    /// The generation that the board holds now, for display: `*` for a live
    /// cell, a blank for a dead one.
    pub fn display_string(&self) -> (text: String)
        ensures
            text@ == grid_text(self@, "*"@, " "@, false, ""@),
    {
        self.board.render("*", " ", false, "")
    }

    /// The generation that the board holds now, for inspection: `T` for a
    /// live cell, `F` for a dead one, each with its column and its row.
    pub fn debug_string(&self) -> (text: String)
        ensures
            text@ == grid_text(self@, "T"@, "F"@, true, ""@),
    {
        self.board.render("T", "F", true, "")
    }

    /// Whether the cell at `(x, y)` of the generation that the board holds
    /// now is alive, or `None` where the board has no cell.
    pub fn is_cell_alive(&self, x: i64, y: i64) -> (r: Option<bool>)
        ensures
            r == alive_at(self@, x as int, y as int),
    {
        self.board.is_cell_alive(x, y)
    }

    /// Whether the cell at `(x, y)` is alive, or `None` where the board has
    /// no cell.
    pub fn _is_cell_alive(&self, x: i64, y: i64) -> (r: Option<bool>)
        ensures
            r == alive_at(self@, x as int, y as int),
    {
        match self._cell_at(x, y) {
            Some(cell) => Some(cell.is_alive()),
            None => None,
        }
    }

    /// The cell at `(x, y)`, or `None` where the board has no cell.
    pub fn _cell_at(&self, x: i64, y: i64) -> (r: Option<Cell>)
        ensures
            match r {
                Some(cell) => alive_at(self@, x as int, y as int) == Some(cell.alive),
                None => alive_at(self@, x as int, y as int) is None,
            },
    {
        match self.board.get(x as i128, y as i128) {
            Some(cell) => Some(*cell),
            None => None,
        }
    }
}

impl ParallelLifeBoard {
    /// The number of workers.
    pub fn thread_count(&self) -> (count: usize)
        ensures
            count == self.workers(),
            count >= 1,
    {
        proof {
            use_type_invariant(self);
        }
        self.nthreads
    }

    /// The columns of worker `thread_idx`.
    pub fn thread_range(&self, thread_idx: usize) -> (row_range: Range<usize>)
        requires
            thread_idx < self.workers(),
        ensures
            row_range == self.plan()[thread_idx as int],
            row_range.start <= row_range.end <= self@.len(),
    {
        proof {
            use_type_invariant(self);
            lemma_plan_is_partition(self.plan(), self@.len(), self.workers());
            lemma_partition_is_bounded(self.plan(), self@.len(), thread_idx as int);
        }
        self.thread_row_ranges[thread_idx].start..self.thread_row_ranges[thread_idx].end
    }

    /// A handle to the generation that the board holds now. The generation
    /// behind the handle never changes, whatever becomes of the board.
    pub fn snapshot(&self) -> (handle: Arc<life::LifeBoard>)
        ensures
            handle@ == self@,
    {
        share(&self.board)
    }

    /// Lays out the grid that holds each delivered slice at the columns of
    /// its worker's range, in whatever order the deliveries came. Fails
    /// unless every worker of the plan delivered once and in the right shape.
    fn assemble(&self, results: Vec<(Vec<Vec<Cell>>, usize)>) -> (r: Result<
        life::LifeBoard,
        LifeBoardError,
    >)
        ensures
            match r {
                Ok(next) => {
                    &&& deliveries_fit(deliveries(results@), self.plan(), self@[0].len())
                    &&& is_grid(next@)
                    &&& next@.len() == self@.len()
                    &&& holds_deliveries(next@, deliveries(results@), self.plan())
                },
                Err(LifeBoardError::WorkerFailure(msg)) => {
                    &&& !deliveries_fit(deliveries(results@), self.plan(), self@[0].len())
                    &&& msg@ == worker_failure_message()
                },
                Err(_) => false,
            },
    {
        proof {
            use_type_invariant(self);
            lemma_plan_is_partition(self.plan(), self@.len(), self.workers());
        }
        let width = self.board.width();
        let height = self.board.height();
        let workers = self.nthreads;
        let ghost all = results@;
        let ghost ranges = self.thread_row_ranges@;
        let mut pending = results;
        let mut new_grid: Vec<Vec<Cell>> = Vec::with_capacity(width);
        while new_grid.len() < width
            invariant
                new_grid@.len() <= width,
            decreases width - new_grid@.len(),
        {
            new_grid.push(Vec::new());
        }
        let mut seen: Vec<bool> = Vec::with_capacity(workers);
        while seen.len() < workers
            invariant
                seen@.len() <= workers,
                forall|i: int| 0 <= i < seen@.len() ==> !#[trigger] seen@[i],
            decreases workers - seen@.len(),
        {
            seen.push(false);
        }
        let ghost mut owner: Seq<int> = Seq::new(workers as nat, |i: int| -1);
        while pending.len() > 0
            invariant
                self.thread_row_ranges@ == ranges,
                self.plan() == ranges,
                self@[0].len() == height,
                ranges.len() == workers,
                is_partition(ranges, width as nat),
                all == results@,
                pending@ == all.subrange(0, pending@.len() as int),
                pending@.len() <= all.len(),
                new_grid@.len() == width,
                intake(all, ranges, new_grid@, height as int, pending@.len() as int, seen@, owner),
            decreases pending@.len(),
        {
            let ghost j = pending@.len() - 1;
            let (mut board_slice, thread_idx) = pending.pop().unwrap();
            assert(all[j] == (board_slice, thread_idx));
            if thread_idx >= workers {
                proof {
                    lemma_delivery_misfits(all, ranges, height as nat, j);
                }
                return Err(ParallelLifeBoard::worker_failure());
            }
            if seen[thread_idx] {
                proof {
                    let other = owner[thread_idx as int];
                    assert(worker_settled(
                        all,
                        ranges,
                        new_grid@,
                        height as int,
                        j + 1,
                        thread_idx as int,
                        other,
                    ));
                    assert(deliveries(all)[j].1 == deliveries(all)[other].1);
                }
                return Err(ParallelLifeBoard::worker_failure());
            }
            let start = self.thread_row_ranges[thread_idx].start;
            let end = self.thread_row_ranges[thread_idx].end;
            proof {
                lemma_partition_is_bounded(ranges, width as nat, thread_idx as int);
            }
            if board_slice.len() != end - start {
                proof {
                    lemma_delivery_misfits(all, ranges, height as nat, j);
                }
                return Err(ParallelLifeBoard::worker_failure());
            }
            let ghost slice = board_slice@;
            let ghost grid_before = new_grid@;
            while board_slice.len() > 0
                invariant
                    all == results@,
                    self.plan() == ranges,
                    self@[0].len() == height,
                    start <= end <= width,
                    slice.len() == end - start,
                    board_slice@ == slice.subrange(0, board_slice@.len() as int),
                    board_slice@.len() <= slice.len(),
                    new_grid@.len() == width,
                    grid_before.len() == width,
                    forall|k: int|
                        board_slice@.len() <= k < slice.len() ==> new_grid@[start + k]
                            == #[trigger] slice[k] && slice[k]@.len() == height,
                    forall|c: int|
                        0 <= c < width && !(start <= c < end) ==> #[trigger] new_grid@[c]
                            == grid_before[c],
                    all[j].0@ == slice,
                    all[j].1 == thread_idx,
                    0 <= j < all.len(),
                    thread_idx < ranges.len(),
                    ranges[thread_idx as int].start == start,
                    ranges[thread_idx as int].end == end,
                decreases board_slice@.len(),
            {
                let ghost k = board_slice@.len() - 1;
                let board_col = board_slice.pop().unwrap();
                assert(slice[k] == board_col);
                if board_col.len() != height {
                    proof {
                        assert(liveness(slice)[k].len() != height);
                        lemma_delivery_misfits(all, ranges, height as nat, j);
                    }
                    return Err(ParallelLifeBoard::worker_failure());
                }
                let row_idx = start + board_slice.len();
                new_grid.set(row_idx, board_col);
            }
            seen.set(thread_idx, true);
            proof {
                let owner_before = owner;
                owner = owner.update(thread_idx as int, j);
                assert forall|i: int| 0 <= i < workers implies worker_settled(
                    all,
                    ranges,
                    new_grid@,
                    height as int,
                    j,
                    i,
                    #[trigger] owner[i],
                ) by {
                    if i != thread_idx && owner[i] >= 0 {
                        assert(worker_settled(
                            all,
                            ranges,
                            grid_before,
                            height as int,
                            j + 1,
                            i,
                            owner_before[i],
                        ));
                        let theirs = all[owner[i]].0@;
                        assert forall|k: int| 0 <= k < theirs.len() implies new_grid@[ranges[i].start
                            + k] == #[trigger] theirs[k] && theirs[k]@.len() == height by {
                            let c = ranges[i].start + k;
                            lemma_partition_is_bounded(ranges, width as nat, i);
                            if start <= c < end {
                                lemma_partition_is_disjoint(
                                    ranges,
                                    width as nat,
                                    i,
                                    thread_idx as int,
                                    c,
                                );
                            }
                            assert(new_grid@[c] == grid_before[c]);
                        }
                    }
                }
                assert forall|j2: int| j <= j2 < all.len() implies (#[trigger] all[j2]).1
                    < workers && owner[all[j2].1 as int] == j2 by {
                    if j2 > j {
                        assert(owner_before[all[j2].1 as int] == j2);
                    }
                }
            }
        }
        let mut thread_idx: usize = 0;
        while thread_idx < workers
            invariant
                all == results@,
                self.plan() == ranges,
                self@[0].len() == height,
                ranges.len() == workers,
                thread_idx <= workers,
                intake(all, ranges, new_grid@, height as int, 0, seen@, owner),
                forall|i: int| 0 <= i < thread_idx ==> #[trigger] seen@[i],
            decreases workers - thread_idx,
        {
            if !seen[thread_idx] {
                proof {
                    let d = deliveries(all);
                    if delivered(d, thread_idx as int) {
                        let j = choose|j: int|
                            0 <= j < d.len() && (#[trigger] d[j]).1 == thread_idx as int;
                        assert(owner[all[j].1 as int] == j);
                    }
                }
                return Err(ParallelLifeBoard::worker_failure());
            }
            thread_idx += 1;
        }
        proof {
            lemma_settled_deliveries_fit(
                all,
                ranges,
                new_grid@,
                width as nat,
                height as nat,
                seen@,
                owner,
            );
        }
        Ok(life::LifeBoard::from_columns(new_grid))
    }

    /// JOIN: takes in what the workers delivered, in whatever order it came,
    /// and replaces the generation by the grid that holds each slice at the
    /// columns of its worker's range. Unless every worker of the plan
    /// delivered once and in the right shape, the board keeps its generation
    /// and the failure is reported.
    pub fn join(&mut self, results: Vec<(Vec<Vec<Cell>>, usize)>) -> (r: Result<
        (),
        LifeBoardError,
    >)
        ensures
            final(self).plan() == old(self).plan(),
            final(self).workers() == old(self).workers(),
            match r {
                Ok(()) => {
                    &&& deliveries_fit(
                        deliveries(results@),
                        old(self).plan(),
                        old(self)@[0].len(),
                    )
                    &&& final(self)@.len() == old(self)@.len()
                    &&& holds_deliveries(final(self)@, deliveries(results@), old(self).plan())
                    &&& final(self)@ == slices_in_range_order(
                        deliveries(results@),
                        old(self).workers(),
                    )
                    &&& deliveries_are_slices(deliveries(results@), old(self)@, old(self).plan())
                        ==> final(self)@ == step(old(self)@)
                },
                Err(LifeBoardError::WorkerFailure(msg)) => {
                    &&& !deliveries_fit(
                        deliveries(results@),
                        old(self).plan(),
                        old(self)@[0].len(),
                    )
                    &&& msg@ == worker_failure_message()
                    &&& final(self)@ == old(self)@
                },
                Err(_) => false,
            },
    {
        proof {
            use_type_invariant(&*self);
            lemma_plan_is_partition(self.plan(), self@.len(), self.workers());
        }
        match self.assemble(results) {
            Ok(next) => {
                proof {
                    lemma_assembly_is_in_range_order(
                        next@,
                        deliveries(results@),
                        self.plan(),
                        self@[0].len(),
                    );
                    if deliveries_are_slices(deliveries(results@), self@, self.plan()) {
                        lemma_deliveries_assemble_step(
                            self@,
                            next@,
                            deliveries(results@),
                            self.plan(),
                        );
                    }
                }
                self.board = Arc::new(next);
                Ok(())
            },
            Err(error) => Err(error),
        }
    }

    /// Replaces the generation by the next one, computed partition by
    /// partition: DISPATCH hands every worker of the plan its range, and each
    /// computes its slice from the generation that the board holds; JOIN
    /// takes the slices in. Here the workers take their turns on the calling
    /// thread.
    pub fn simulate(&mut self)
        ensures
            final(self).plan() == old(self).plan(),
            final(self).workers() == old(self).workers(),
            final(self)@ == partitioned_step(old(self)@, old(self).plan()),
            final(self)@ == step(old(self)@),
    {
        proof {
            use_type_invariant(&*self);
            lemma_plan_is_partition(self.plan(), self@.len(), self.workers());
            lemma_partitioned_step_is_step(self@, self.plan());
        }
        let workers = self.nthreads;
        let mut results: Vec<(Vec<Vec<Cell>>, usize)> = Vec::with_capacity(workers);
        let mut thread_idx: usize = 0;
        while thread_idx < workers
            invariant
                workers == self.workers(),
                thread_idx <= workers,
                results@.len() == thread_idx,
                forall|j: int|
                    0 <= j < thread_idx ==> (#[trigger] results@[j]).1 == j && liveness(
                        results@[j].0@,
                    ) == step_slice(
                        self@,
                        self.plan()[j].start as int,
                        self.plan()[j].end as int,
                    ),
            decreases workers - thread_idx,
        {
            let row_range = self.thread_range(thread_idx);
            let board_slice = self.board.simulate_slice(row_range);
            results.push((board_slice, thread_idx));
            thread_idx += 1;
        }
        proof {
            lemma_ordered_deliveries_fit(self@, self.plan(), deliveries(results@));
        }
        let joined = self.join(results);
        assert(joined is Ok);
    }

    /// Advances the board by `steps` generations, as `steps` calls of
    /// `simulate` do. With `steps == 0` the board is left as it is.
    pub fn simulate_n_steps(&mut self, steps: u16)
        ensures
            final(self).plan() == old(self).plan(),
            final(self).workers() == old(self).workers(),
            final(self)@ == partitioned_generation_after(
                old(self)@,
                old(self).plan(),
                steps as nat,
            ),
            final(self)@ == generation_after(old(self)@, steps as nat),
    {
        let mut done: u16 = 0;
        while done < steps
            invariant
                done <= steps,
                self.plan() == old(self).plan(),
                self.workers() == old(self).workers(),
                self@ == partitioned_generation_after(old(self)@, old(self).plan(), done as nat),
                self@ == generation_after(old(self)@, done as nat),
            decreases steps - done,
        {
            self.simulate();
            done += 1;
        }
    }

    fn worker_failure() -> (error: LifeBoardError)
        ensures
            error matches LifeBoardError::WorkerFailure(msg) && msg@ == worker_failure_message(),
    {
        LifeBoardError::WorkerFailure(
            "Every worker must deliver its slice of the board once.".to_owned(),
        )
    }
}

/// A delivery from a worker that the plan does not have, or of a shape other
/// than its range asks for, keeps the deliveries from fitting.
proof fn lemma_delivery_misfits(
    all: Seq<(Vec<Vec<Cell>>, usize)>,
    ranges: Seq<Range<usize>>,
    height: nat,
    j: int,
)
    requires
        0 <= j < all.len(),
        !delivery_fits(liveness(all[j].0@), all[j].1 as int, ranges, height),
    ensures
        !deliveries_fit(deliveries(all), ranges, height),
{
    assert(deliveries(all)[j].0 == liveness(all[j].0@));
}

/// Once every worker has delivered and no delivery is pending, the
/// deliveries fit, and the grid holds them and is rectangular.
proof fn lemma_settled_deliveries_fit(
    all: Seq<(Vec<Vec<Cell>>, usize)>,
    ranges: Seq<Range<usize>>,
    grid: Seq<Vec<Cell>>,
    width: nat,
    height: nat,
    seen: Seq<bool>,
    owner: Seq<int>,
)
    requires
        width >= 1,
        height >= 1,
        grid.len() == width,
        is_partition(ranges, width),
        intake(all, ranges, grid, height as int, 0, seen, owner),
        forall|i: int| 0 <= i < seen.len() ==> #[trigger] seen[i],
    ensures
        deliveries_fit(deliveries(all), ranges, height),
        holds_deliveries(liveness(grid), deliveries(all), ranges),
        is_grid(liveness(grid)),
{
    let d = deliveries(all);
    assert forall|j: int| 0 <= j < d.len() implies delivery_fits(
        (#[trigger] d[j]).0,
        d[j].1,
        ranges,
        height,
    ) by {
        let i = all[j].1 as int;
        assert(worker_settled(all, ranges, grid, height as int, 0, i, owner[i]));
        assert forall|k: int| 0 <= k < d[j].0.len() implies (#[trigger] d[j].0[k]).len()
            == height by {
            assert(all[j].0@[k]@.len() == height);
        }
    }
    assert forall|j1: int, j2: int| 0 <= j1 < j2 < d.len() implies (#[trigger] d[j1]).1 != (
    #[trigger] d[j2]).1 by {
        assert(owner[all[j1].1 as int] == j1);
        assert(owner[all[j2].1 as int] == j2);
    }
    assert forall|i: int| 0 <= i < ranges.len() implies #[trigger] delivered(d, i) by {
        assert(seen[i]);
        assert(worker_settled(all, ranges, grid, height as int, 0, i, owner[i]));
        assert(d[owner[i]].1 == i);
    }
    assert forall|j: int, k: int| 0 <= j < d.len() && 0 <= k < d[j].0.len() implies liveness(
        grid,
    )[ranges[d[j].1].start + k] == #[trigger] d[j].0[k] by {
        let i = all[j].1 as int;
        assert(worker_settled(all, ranges, grid, height as int, 0, i, owner[i]));
        lemma_partition_is_bounded(ranges, width, i);
        assert(grid[ranges[i].start + k] == all[j].0@[k]);
    }
    assert forall|c: int| 0 <= c < liveness(grid).len() implies (#[trigger] liveness(grid)[c]).len()
        == height by {
        let i = lemma_partition_covers_each_column_once(ranges, width, c);
        assert(seen[i]);
        assert(worker_settled(all, ranges, grid, height as int, 0, i, owner[i]));
        let k = c - ranges[i].start;
        assert(grid[ranges[i].start + k] == all[owner[i]].0@[k]);
    }
    assert(liveness(grid)[0].len() == height);
}

/// One delivery from each worker, in the order of the plan and each the
/// slice that its worker computes from `g`, fits.
proof fn lemma_ordered_deliveries_fit(
    g: Seq<Seq<bool>>,
    ranges: Seq<Range<usize>>,
    d: Seq<(Seq<Seq<bool>>, int)>,
)
    requires
        is_grid(g),
        is_partition(ranges, g.len()),
        d.len() == ranges.len(),
        forall|j: int|
            0 <= j < d.len() ==> (#[trigger] d[j]).1 == j && d[j].0 == step_slice(
                g,
                ranges[j].start as int,
                ranges[j].end as int,
            ),
    ensures
        deliveries_fit(d, ranges, g[0].len()),
        deliveries_are_slices(d, g, ranges),
{
    assert forall|j: int| 0 <= j < d.len() implies delivery_fits(
        (#[trigger] d[j]).0,
        d[j].1,
        ranges,
        g[0].len(),
    ) by {
        lemma_partition_is_bounded(ranges, g.len(), j);
        assert forall|k: int| 0 <= k < d[j].0.len() implies (#[trigger] d[j].0[k]).len()
            == g[0].len() by {
            assert(g[ranges[j].start + k].len() == g[0].len());
        }
    }
    assert forall|i: int| 0 <= i < ranges.len() implies #[trigger] delivered(d, i) by {
        assert(d[i].1 == i);
    }
}

impl LifeBoard<Cell> for ParallelLifeBoard {
    open spec fn generation(&self) -> Seq<Seq<bool>> {
        self@
    }

    fn width(&self) -> (w: usize) {
        self.board.width()
    }

    fn height(&self) -> (h: usize) {
        self.board.height()
    }

    fn simulate(&mut self)
        ensures
            final(self).plan() == old(self).plan(),
            final(self).workers() == old(self).workers(),
    {
        ParallelLifeBoard::simulate(self)
    }

    fn simulate_n_steps(&mut self, steps: usize)
        ensures
            final(self).plan() == old(self).plan(),
            final(self).workers() == old(self).workers(),
    {
        let mut done: usize = 0;
        while done < steps
            invariant
                done <= steps,
                self.plan() == old(self).plan(),
                self.workers() == old(self).workers(),
                self@ == generation_after(old(self)@, done as nat),
            decreases steps - done,
        {
            ParallelLifeBoard::simulate(self);
            done += 1;
        }
    }

    fn next_cell_state_at(&self, x: usize, y: usize) -> (r: Option<Cell>) {
        let width = self.board.width();
        let height = self.board.height();
        if x < width && y < height {
            Some(self.board.next_cell_state(x, y))
        } else {
            None
        }
    }

    fn cell_at(&self, x: usize, y: usize) -> (r: Option<Cell>) {
        match self.board.get(x as i128, y as i128) {
            Some(cell) => Some(*cell),
            None => None,
        }
    }

    fn num_alive_neighbors_at(&self, x: usize, y: usize) -> (neighbors: u8) {
        self.board.get_num_alive_neighbors(x, y)
    }

    fn is_cell_alive(&self, x: usize, y: usize) -> (r: Option<bool>) {
        match self.board.get(x as i128, y as i128) {
            Some(cell) => Some(cell.is_alive()),
            None => None,
        }
    }

    fn to_vec_matrix(&self) -> (matrix: Vec<Vec<Cell>>) {
        let board: &life::LifeBoard = &*self.board;
        let matrix = board.clone().into_grid();
        assert(liveness(matrix@) == self@);
        assert forall|x: int| 0 <= x < matrix@.len() implies (#[trigger] matrix@[x])@.len()
            == self@[x].len() by {
            assert(liveness(matrix@)[x].len() == matrix@[x]@.len());
        }
        assert forall|x: int, y: int|
            0 <= x < matrix@.len() && 0 <= y < matrix@[x]@.len() implies (
        #[trigger] matrix@[x]@[y]).alive_spec() == self@[x][y] by {
            assert(liveness(matrix@)[x][y] == matrix@[x]@[y].alive);
        }
        matrix
    }
}

impl Clone for ParallelLifeBoard {
    /// An engine with the same plan and a handle of its own to the same
    /// generation.
    fn clone(&self) -> (copy: ParallelLifeBoard)
        ensures
            copy@ == self@,
            copy.workers() == self.workers(),
            copy.plan() == self.plan(),
    {
        proof {
            use_type_invariant(self);
        }
        let thread_row_ranges = ParallelLifeBoard::row_ranges(self.board.width(), self.nthreads);
        assert(thread_row_ranges@ =~= self.thread_row_ranges@);
        ParallelLifeBoard { board: share(&self.board), nthreads: self.nthreads, thread_row_ranges }
    }
}

impl PartialEq for ParallelLifeBoard {
    /// Whether the two engines hold the same generation, whatever their
    /// plans.
    fn eq(&self, other: &ParallelLifeBoard) -> (equal: bool) {
        let mine: &life::LifeBoard = &*self.board;
        let theirs: &life::LifeBoard = &*other.board;
        mine.eq(theirs)
    }
}

impl PartialEqSpecImpl for ParallelLifeBoard {
    open spec fn obeys_eq_spec() -> bool {
        true
    }

    open spec fn eq_spec(&self, other: &ParallelLifeBoard) -> bool {
        self@ == other@
    }
}

} // verus!

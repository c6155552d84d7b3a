use vstd::arithmetic::div_mod::{
    lemma_fundamental_div_mod, lemma_fundamental_div_mod_converse, lemma_mod_pos_bound,
};
use vstd::prelude::*;

use crate::counting::{
    count_cells, hidden_pred, lemma_cells_bound, lemma_cells_none, lemma_cells_update,
    lemma_cells_zero, mine_pred, uniform, visited_pred,
};
use crate::field::Field;
use crate::grid_cells::{grid_get, grid_init, grid_rows, grid_set};

verus! {

/// Why a board could not be built; `OK` when it could.
#[derive(Debug, Clone, Copy, PartialEq, Eq, Structural)]
pub enum BoardError {
    OK,
    FieldTooNarrow,
    FieldTooFlat,
    FieldTooLarge,
    TooManyMines,
    TooManyDuds,
}

pub open spec fn board_error_text(e: BoardError) -> Seq<char> {
    match e {
        BoardError::OK => "OK"@,
        BoardError::FieldTooNarrow => "Field is too narrow"@,
        BoardError::FieldTooFlat => "Field is too flat"@,
        BoardError::FieldTooLarge => "Field is too large"@,
        BoardError::TooManyMines => "Too many mines for field"@,
        BoardError::TooManyDuds => "More duds than mines"@,
    }
}

impl BoardError {
    /// A short message for the user.
    pub fn message(&self) -> (r: &'static str)
        ensures
            r@ == board_error_text(*self),
    {
        proof {
            reveal_strlit("OK");
            reveal_strlit("Field is too narrow");
            reveal_strlit("Field is too flat");
            reveal_strlit("Field is too large");
            reveal_strlit("Too many mines for field");
            reveal_strlit("More duds than mines");
        }
        match self {
            BoardError::OK => "OK",
            BoardError::FieldTooNarrow => "Field is too narrow",
            BoardError::FieldTooFlat => "Field is too flat",
            BoardError::FieldTooLarge => "Field is too large",
            BoardError::TooManyMines => "Too many mines for field",
            BoardError::TooManyDuds => "More duds than mines",
        }
    }
}

/// What a move did.
#[derive(Debug, Clone, Copy, PartialEq, Eq, Structural)]
pub enum MoveResult {
    AlreadyVisited,
    Continue,
    FieldFlagged,
    InvalidPosition,
    Lost,
    Won,
}

/// A playing field of `width` columns and `height` rows. Mines are placed on
/// the first visit, never on the visited cell nor on the extra "dud" cells drawn
/// with it. Once the game is won or lost the board keeps its state for
/// rendering and refuses further changes.
#[derive(Debug)]
pub struct Board {
    fields: grid::Grid<Field>,
    width: usize,
    height: usize,
    mines: u8,
    duds: u8,
    initialized: bool,
    revealed: usize,
    outcome: Option<MoveResult>,
}

/// The mine count of cell (`x`, `y`): one if it lies inside `rows` and holds a mine.
pub open spec fn mine_at(rows: Seq<Seq<Field>>, x: int, y: int) -> int {
    if 0 <= y < rows.len() && 0 <= x < rows[y].len() && rows[y][x].spec_mine() {
        1
    } else {
        0
    }
}

/// Number of mines among the up to eight cells around (`x`, `y`).
pub open spec fn adjacent_mines(rows: Seq<Seq<Field>>, x: int, y: int) -> int {
    mine_at(rows, x - 1, y - 1) + mine_at(rows, x, y - 1) + mine_at(rows, x + 1, y - 1)
        + mine_at(rows, x - 1, y) + mine_at(rows, x + 1, y) + mine_at(rows, x - 1, y + 1)
        + mine_at(rows, x, y + 1) + mine_at(rows, x + 1, y + 1)
}

/// (`a`, `b`) and (`c`, `d`) are distinct and touch, diagonals included.
pub open spec fn adjacent(a: int, b: int, c: int, d: int) -> bool {
    (a != c || b != d) && -1 <= a - c <= 1 && -1 <= b - d <= 1
}

/// The cell that candidate `k` stands for when cell `first` (row-major) is left
/// out of the candidates.
pub open spec fn slot(k: int, first: int) -> int {
    if k < first { k } else { k + 1 }
}

/// A valid draw for the first move: `len` distinct candidates below `n`.
pub open spec fn valid_picks(picks: Seq<usize>, len: int, n: int) -> bool {
    &&& picks.len() == len
    &&& forall|i: int| 0 <= i < picks.len() ==> (#[trigger] picks[i]) < n
    &&& forall|i: int, j: int| 0 <= i < j < picks.len() ==> picks[i] != picks[j]
}

pub open spec fn min_int(a: int, b: int) -> int {
    if a < b { a } else { b }
}


/// Row-major cell `idx` of a grid `w` wide lies at row `idx / w`, column `idx % w`.
pub proof fn lemma_position(idx: int, w: int, h: int)
    requires
        w > 0,
        0 <= idx < w * h,
    ensures
        0 <= idx / w < h,
        0 <= idx % w < w,
        idx == (idx / w) * w + idx % w,
{
    lemma_fundamental_div_mod(idx, w);
    lemma_mod_pos_bound(idx, w);
    let q = idx / w;
    assert(q * w == w * q) by (nonlinear_arith);
    assert(0 <= q < h) by (nonlinear_arith)
        requires
            w * q + idx % w == idx,
            0 <= idx % w < w,
            idx < w * h,
            0 <= idx,
            w > 0,
    ;
}

/// Column and row of row-major cell `idx` in a grid `w` wide.
pub open spec fn cell_of(idx: int, w: int) -> (int, int) {
    (idx % w, idx / w)
}

/// Distinct row-major cells of a `w` by `h` grid lie at distinct places inside it.
pub proof fn lemma_cells_distinct(i: int, j: int, w: int, h: int)
    requires
        w > 0,
        0 <= i < w * h,
        0 <= j < w * h,
        i != j,
    ensures
        cell_of(i, w) != cell_of(j, w),
        0 <= cell_of(i, w).0 < w,
        0 <= cell_of(i, w).1 < h,
{
    lemma_position(i, w, h);
    lemma_position(j, w, h);
}

/// The mines stand where the last `mines` of `picks` say, the first cell
/// and the duds (the other picks) are clear.
pub open spec fn placed_as_drawn(b: Board, fx: int, fy: int, picks: Seq<usize>) -> bool {
    let first = fy * b.spec_width() + fx;
    &&& !b.cell(fx, fy).spec_mine()
    &&& forall|j: int|
        0 <= j < picks.len() ==> #[trigger] b.drawn_mine(first, picks[j] as int) == (picks.len()
            - b.spec_mines() <= j)
}

/// No cell is both revealed and flagged.
pub open spec fn exclusive(rows: Seq<Seq<Field>>) -> bool {
    forall|i: int, j: int|
        0 <= i < rows.len() && 0 <= j < rows[i].len() ==> !((#[trigger] rows[i][j]).spec_visited()
            && rows[i][j].spec_flagged())
}

/// Replacing one cell by one that is not both revealed and flagged keeps
/// `exclusive`.
proof fn lemma_exclusive_update(rows: Seq<Seq<Field>>, y: int, x: int, g: Field)
    requires
        exclusive(rows),
        0 <= y < rows.len(),
        0 <= x < rows[y].len(),
        !(g.spec_visited() && g.spec_flagged()),
    ensures
        exclusive(rows.update(y, rows[y].update(x, g))),
{
    let after = rows.update(y, rows[y].update(x, g));
    assert forall|i: int, j: int| 0 <= i < after.len() && 0 <= j < after[i].len() implies !((
    #[trigger] after[i][j]).spec_visited() && after[i][j].spec_flagged()) by {
        if i != y || j != x {
            assert(after[i][j] == rows[i][j]);
        }
    }
}

/// Both boards have the same size and settings.
pub open spec fn same_setup(a: Board, b: Board) -> bool {
    &&& a.spec_width() == b.spec_width()
    &&& a.spec_height() == b.spec_height()
    &&& a.spec_mines() == b.spec_mines()
    &&& a.spec_duds() == b.spec_duds()
}

/// Every cell keeps its mine.
pub open spec fn mines_kept(a: Board, b: Board) -> bool {
    forall|x: int, y: int| #[trigger]
        a.in_bounds(x, y) ==> b.cell(x, y).spec_mine() == a.cell(x, y).spec_mine()
}

/// Every cell keeps its flag and stays revealed if it was; a cell revealed in
/// between holds no mine.
pub open spec fn reveals_safely(a: Board, b: Board) -> bool {
    forall|x: int, y: int| #[trigger]
        a.in_bounds(x, y) ==> {
            &&& b.cell(x, y).spec_flagged() == a.cell(x, y).spec_flagged()
            &&& a.cell(x, y).spec_visited() ==> b.cell(x, y).spec_visited()
            &&& !a.cell(x, y).spec_visited() && b.cell(x, y).spec_visited() ==> !b.cell(
                x,
                y,
            ).spec_mine()
        }
}

pub open spec fn only_reveals(a: Board, b: Board) -> bool {
    mines_kept(a, b) && reveals_safely(a, b)
}

/// What `visit(x, y)` leads to from `a`. Rejections come in this order and
/// leave the board as it was: off the board, flagged, already revealed, game
/// over (which answers the final result). Otherwise a mine loses; otherwise
/// the cell and the safe region around it are revealed (placing the mines
/// first on the first move) and the game is won once every cell without a
/// mine is revealed.
pub open spec fn visit_post(a: Board, b: Board, x: int, y: int, r: MoveResult) -> bool {
    if !a.in_bounds(x, y) {
        r == MoveResult::InvalidPosition && b == a
    } else if a.cell(x, y).spec_flagged() {
        r == MoveResult::FieldFlagged && b == a
    } else if a.cell(x, y).spec_visited() {
        r == MoveResult::AlreadyVisited && b == a
    } else if a.spec_outcome() is Some {
        Some(r) == a.spec_outcome() && b == a
    } else if a.spec_initialized() && a.cell(x, y).spec_mine() {
        &&& r == MoveResult::Lost
        &&& same_setup(a, b)
        &&& b.spec_initialized()
        &&& b.spec_outcome() == Some(MoveResult::Lost)
        &&& b.cell(x, y).spec_visited()
        &&& b.cell(x, y).spec_mine()
        &&& !b.cell(x, y).spec_flagged()
        &&& forall|i: int, j: int| #[trigger]
            a.in_bounds(i, j) && (i != x || j != y) ==> b.cell(i, j) == a.cell(i, j)
    } else {
        &&& r == MoveResult::Continue || r == MoveResult::Won
        &&& same_setup(a, b)
        &&& b.spec_initialized()
        &&& b.cell(x, y).spec_visited()
        &&& !b.cell(x, y).spec_mine()
        &&& reveals_safely(a, b)
        &&& a.spec_initialized() ==> mines_kept(a, b)
        &&& b.mine_count() == b.spec_mines()
        &&& cascade_closed(a, b, x, y)
        &&& cascade_reached(a, b, x, y)
        &&& adjacent_mines(b.cells(), x, y) != 0 ==> forall|i: int, j: int| #[trigger]
            a.in_bounds(i, j) && (i != x || j != y) ==> b.cell(i, j).spec_visited() == a.cell(
                i,
                j,
            ).spec_visited()
        &&& (r == MoveResult::Won) == (b.revealed_count() == b.total() - b.spec_mines())
        &&& b.spec_outcome() == (if r == MoveResult::Won {
            Some(MoveResult::Won)
        } else {
            None
        })
    }
}

/// After a cascade from (`x`, `y`) that led from `a` to `b`: every cell that
/// started it or was revealed by it and has no adjacent mine has all its
/// neighbours revealed or flagged.
pub open spec fn cascade_closed(a: Board, b: Board, x: int, y: int) -> bool {
    forall|cx: int, cy: int, nx: int, ny: int|
        #![trigger adjacent(nx, ny, cx, cy), b.cell(cx, cy)]
        b.in_bounds(cx, cy) && b.in_bounds(nx, ny) && adjacent(nx, ny, cx, cy) && ((cx == x
            && cy == y) || (!a.cell(cx, cy).spec_visited() && b.cell(cx, cy).spec_visited()))
            && adjacent_mines(b.cells(), cx, cy) == 0 ==> b.cell(nx, ny).spec_visited() || b.cell(
            nx,
            ny,
        ).spec_flagged()
}

/// Cell `c` touches `n`, has no mine around it in `rows`, and is (`x`, `y`)
/// or a cell revealed between `a` and `b`.
pub open spec fn opened_by(
    rows: Seq<Seq<Field>>,
    a: Board,
    b: Board,
    x: int,
    y: int,
    n: (int, int),
    c: (int, int),
) -> bool {
    &&& b.in_bounds(c.0, c.1)
    &&& adjacent(n.0, n.1, c.0, c.1)
    &&& b.cell(c.0, c.1).spec_visited()
    &&& ((c.0 == x && c.1 == y) || !a.cell(c.0, c.1).spec_visited())
    &&& adjacent_mines(rows, c.0, c.1) == 0
}

/// Every cell revealed between `a` and `b`, other than (`x`, `y`), touches
/// (`x`, `y`) or another cell revealed in between, which has no adjacent mine.
pub open spec fn cascade_reached(a: Board, b: Board, x: int, y: int) -> bool {
    forall|nx: int, ny: int|
        #![trigger b.cell(nx, ny)]
        b.in_bounds(nx, ny) && (nx != x || ny != y) && !a.cell(nx, ny).spec_visited() && b.cell(
            nx,
            ny,
        ).spec_visited() ==> exists|cx: int, cy: int|
            opened_by(b.cells(), a, b, x, y, (nx, ny), (cx, cy))
}

/// Cell (`x`, `y`) is revealed, flagged, or waiting in `work`.
pub open spec fn covered(b: Board, work: Seq<(usize, usize)>, x: int, y: int) -> bool {
    b.cell(x, y).spec_visited() || b.cell(x, y).spec_flagged() || work.contains(
        (x as usize, y as usize),
    )
}

/// What `toggle_flag(x, y)` leads to from `a`. Once the game is over a hidden
/// cell keeps its flag and the board stays as it was.
pub open spec fn toggle_post(a: Board, b: Board, x: int, y: int, r: MoveResult) -> bool {
    if !a.in_bounds(x, y) {
        r == MoveResult::InvalidPosition && b == a
    } else if a.cell(x, y).spec_visited() {
        r == MoveResult::AlreadyVisited && b == a
    } else if a.spec_outcome() is Some {
        r == MoveResult::Continue && b == a
    } else {
        &&& r == MoveResult::Continue
        &&& same_setup(a, b)
        &&& b.spec_initialized() == a.spec_initialized()
        &&& b.spec_outcome() == a.spec_outcome()
        &&& b.cell(x, y).spec_flagged() == !a.cell(x, y).spec_flagged()
        &&& b.cell(x, y).spec_mine() == a.cell(x, y).spec_mine()
        &&& !b.cell(x, y).spec_visited()
        &&& forall|i: int, j: int| #[trigger]
            a.in_bounds(i, j) && (i != x || j != y) ==> b.cell(i, j) == a.cell(i, j)
    }
}

proof fn lemma_mine_at_same(a: Board, b: Board, x: int, y: int)
    requires
        a.wf_shape(),
        b.wf_shape(),
        same_setup(a, b),
        mines_kept(a, b),
    ensures
        mine_at(a.cells(), x, y) == mine_at(b.cells(), x, y),
{
    if a.in_bounds(x, y) {
        assert(a.cell(x, y).spec_mine() == b.cell(x, y).spec_mine());
    }
}

/// Boards of one shape with the same mines count the same mines around
/// every cell.
proof fn lemma_adjacent_same(a: Board, b: Board, x: int, y: int)
    requires
        a.wf_shape(),
        b.wf_shape(),
        same_setup(a, b),
        mines_kept(a, b),
    ensures
        adjacent_mines(a.cells(), x, y) == adjacent_mines(b.cells(), x, y),
{
    lemma_mine_at_same(a, b, x - 1, y - 1);
    lemma_mine_at_same(a, b, x, y - 1);
    lemma_mine_at_same(a, b, x + 1, y - 1);
    lemma_mine_at_same(a, b, x - 1, y);
    lemma_mine_at_same(a, b, x + 1, y);
    lemma_mine_at_same(a, b, x - 1, y + 1);
    lemma_mine_at_same(a, b, x, y + 1);
    lemma_mine_at_same(a, b, x + 1, y + 1);
}

/// Relies on rand::seq::index::sample with the thread-local generator: `amount`
/// distinct indices below `length`, in random order. It panics when `amount`
/// exceeds `length`.
#[verifier::external_body]
fn random_sample(length: usize, amount: usize) -> (r: Vec<usize>)
    requires
        amount <= length,
    ensures
        valid_picks(r@, amount as int, length as int),
{
    rand::seq::index::sample(&mut rand::thread_rng(), length, amount).into_vec()
}

impl Board {
    pub closed spec fn cells(&self) -> Seq<Seq<Field>> {
        grid_rows(self.fields)
    }

    pub closed spec fn spec_width(&self) -> int {
        self.width as int
    }

    pub closed spec fn spec_height(&self) -> int {
        self.height as int
    }

    pub closed spec fn spec_mines(&self) -> int {
        self.mines as int
    }

    pub closed spec fn spec_duds(&self) -> int {
        self.duds as int
    }

    pub closed spec fn spec_initialized(&self) -> bool {
        self.initialized
    }

    /// The final result once the game is won or lost.
    pub closed spec fn spec_outcome(&self) -> Option<MoveResult> {
        self.outcome
    }

    /// The grid has `height` rows of `width` cells.
    pub closed spec fn wf_shape(&self) -> bool {
        &&& self.width >= 1
        &&& self.height >= 1
        &&& self.width * self.height <= usize::MAX
        &&& self.cells().len() == self.height
        &&& uniform(self.cells(), self.width as int)
    }

    /// The cell that candidate `k` stands for, with `first` left out, holds a mine.
    pub open spec fn drawn_mine(&self, first: int, k: int) -> bool {
        let (x, y) = cell_of(slot(k, first), self.spec_width());
        self.cell(x, y).spec_mine()
    }

    pub open spec fn total(&self) -> int {
        self.spec_width() * self.spec_height()
    }

    pub open spec fn in_bounds(&self, x: int, y: int) -> bool {
        0 <= x < self.spec_width() && 0 <= y < self.spec_height()
    }

    pub open spec fn cell(&self, x: int, y: int) -> Field {
        self.cells()[y][x]
    }

    /// Number of cells that the player has revealed.
    pub open spec fn revealed_count(&self) -> int {
        count_cells(self.cells(), visited_pred()) as int
    }

    /// Number of cells that hold a mine.
    pub open spec fn mine_count(&self) -> int {
        count_cells(self.cells(), mine_pred()) as int
    }

    /// How many candidates the first move draws: the duds first, then the
    /// mines; duds give way where the board has no room for them.
    pub open spec fn draw_len(&self) -> int {
        min_int(self.spec_mines() + self.spec_duds(), self.total() - 1)
    }

    pub closed spec fn wf(&self) -> bool {
        &&& self.width >= 1
        &&& self.height >= 1
        &&& self.width * self.height <= usize::MAX
        &&& self.cells().len() == self.height
        &&& uniform(self.cells(), self.width as int)
        &&& (self.mines as int) < self.width * self.height
        &&& self.duds <= self.mines
        &&& self.revealed == self.revealed_count()
        &&& exclusive(self.cells())
        &&& !self.initialized ==> {
            &&& self.mine_count() == 0
            &&& self.revealed_count() == 0
            &&& self.outcome is None
        }
        &&& self.initialized ==> self.mine_count() == self.mines
        &&& self.outcome is None || self.outcome == Some(MoveResult::Lost) || self.outcome == Some(
            MoveResult::Won,
        )
    }

    /// Checks the size and counts, in this order: width, height, a number of
    /// cells that fits in `usize`, mines against the number of cells, duds
    /// against mines.
    pub fn with_duds(width: usize, height: usize, mines: u8, duds: u8) -> (r: (
        Option<Self>,
        BoardError,
    ))
        ensures
            width < 1 ==> r == (None::<Self>, BoardError::FieldTooNarrow),
            width >= 1 && height < 1 ==> r == (None::<Self>, BoardError::FieldTooFlat),
            width >= 1 && height >= 1 && width * height > usize::MAX ==> r == (
                None::<Self>,
                BoardError::FieldTooLarge,
            ),
            width >= 1 && height >= 1 && width * height <= usize::MAX && width * height <= mines ==> r == (
                None::<Self>,
                BoardError::TooManyMines,
            ),
            width >= 1 && height >= 1 && width * height <= usize::MAX && width * height > mines && duds > mines ==> r == (
                None::<Self>,
                BoardError::TooManyDuds,
            ),
            width >= 1 && height >= 1 && width * height <= usize::MAX && width * height > mines && duds <= mines ==> {
                &&& r.1 == BoardError::OK
                &&& r.0 matches Some(b) && b.wf() && b.spec_width() == width
                    && b.spec_height() == height && b.spec_mines() == mines
                    && b.spec_duds() == duds && !b.spec_initialized()
                    && b.spec_outcome() is None
                    && forall|x: int, y: int| #[trigger]
                        b.in_bounds(x, y) ==> !b.cell(x, y).spec_mine()
                            && !b.cell(x, y).spec_visited() && !b.cell(x, y).spec_flagged()
            },
    {
        if width < 1 {
            (None, BoardError::FieldTooNarrow)
        } else if height < 1 {
            (None, BoardError::FieldTooFlat)
        } else if width.checked_mul(height).is_none() {
            (None, BoardError::FieldTooLarge)
        } else if width * height <= mines as usize {
            (None, BoardError::TooManyMines)
        } else if duds > mines {
            (None, BoardError::TooManyDuds)
        } else {
            let fields = grid_init(height, width, Field::new());
            let b = Self {
                fields,
                width,
                height,
                mines,
                duds,
                initialized: false,
                revealed: 0,
                outcome: None,
            };
            proof {
                lemma_cells_none(b.cells(), mine_pred());
                lemma_cells_none(b.cells(), visited_pred());
            }
            (Some(b), BoardError::OK)
        }
    }

    pub fn width(&self) -> (r: usize)
        ensures
            r == self.spec_width(),
    {
        self.width
    }

    pub fn height(&self) -> (r: usize)
        ensures
            r == self.spec_height(),
    {
        self.height
    }

    /// A copy of the cell at (`x`, `y`), or nothing outside the board.
    pub fn field(&self, x: usize, y: usize) -> (r: Option<Field>)
        requires
            self.wf(),
        ensures
            self.in_bounds(x as int, y as int) ==> r == Some(self.cell(x as int, y as int)),
            !self.in_bounds(x as int, y as int) ==> r is None,
    {
        grid_get(&self.fields, y, x)
    }

    /// Flags or unflags a hidden cell; once the game is over it changes
    /// nothing and answers `Continue` for a hidden cell.
    pub fn toggle_flag(&mut self, x: usize, y: usize) -> (r: MoveResult)
        requires
            old(self).wf(),
        ensures
            final(self).wf(),
            toggle_post(*old(self), *final(self), x as int, y as int, r),
    {
        match grid_get(&self.fields, y, x) {
            None => MoveResult::InvalidPosition,
            Some(f) => {
                if f.visited() {
                    MoveResult::AlreadyVisited
                } else if self.outcome.is_some() {
                    MoveResult::Continue
                } else {
                    let mut g = f;
                    g.toggle_flag();
                    let ghost before = self.cells();
                    grid_set(&mut self.fields, y, x, g);
                    proof {
                        lemma_cells_update(before, y as int, x as int, g, mine_pred());
                        lemma_cells_update(before, y as int, x as int, g, visited_pred());
                        lemma_exclusive_update(before, y as int, x as int, g);
                    }
                    MoveResult::Continue
                }
            },
        }
    }

    /// One if (`x`, `y`) lies on the board and holds a mine, else zero.
    fn mine_at_exec(&self, x: usize, y: usize) -> (r: usize)
        requires
            self.wf(),
        ensures
            r == mine_at(self.cells(), x as int, y as int),
    {
        match grid_get(&self.fields, y, x) {
            Some(f) => if f.has_mine() { 1 } else { 0 },
            None => 0,
        }
    }

    /// Number of mines around (`x`, `y`).
    fn neighboring_mines(&self, x: usize, y: usize) -> (r: usize)
        requires
            self.wf(),
            self.in_bounds(x as int, y as int),
        ensures
            r == adjacent_mines(self.cells(), x as int, y as int),
    {
        let mut c: usize = 0;
        if y > 0 {
            if x > 0 {
                c = c + self.mine_at_exec(x - 1, y - 1);
            }
            c = c + self.mine_at_exec(x, y - 1);
            c = c + self.mine_at_exec(x + 1, y - 1);
        }
        if x > 0 {
            c = c + self.mine_at_exec(x - 1, y);
        }
        c = c + self.mine_at_exec(x + 1, y);
        if x > 0 {
            c = c + self.mine_at_exec(x - 1, y + 1);
        }
        c = c + self.mine_at_exec(x, y + 1);
        c = c + self.mine_at_exec(x + 1, y + 1);
        c
    }

    /// Appends (`x`, `y`) to `work` when it lies on the board.
    fn push_inside(&self, work: &mut Vec<(usize, usize)>, x: usize, y: usize)
        ensures
            self.in_bounds(x as int, y as int) ==> final(work)@ == old(work)@.push((x, y)),
            !self.in_bounds(x as int, y as int) ==> final(work)@ == old(work)@,
    {
        if x < self.width && y < self.height {
            work.push((x, y));
        }
    }

    /// Appends the neighbours of (`x`, `y`) to `work`.
    fn push_neighbors(&self, work: &mut Vec<(usize, usize)>, x: usize, y: usize)
        requires
            self.in_bounds(x as int, y as int),
        ensures
            final(work)@.len() >= old(work)@.len(),
            forall|i: int| 0 <= i < old(work)@.len() ==> final(work)@[i] == old(work)@[i],
            forall|i: int|
                old(work)@.len() <= i < final(work)@.len() ==> self.in_bounds(
                    (#[trigger] final(work)@[i]).0 as int,
                    final(work)@[i].1 as int,
                ) && adjacent(final(work)@[i].0 as int, final(work)@[i].1 as int, x as int, y as int),
            forall|a: int, b: int|
                self.in_bounds(a, b) && #[trigger] adjacent(a, b, x as int, y as int)
                    ==> final(work)@.contains((a as usize, b as usize)),
    {
        let ghost w0 = work@;
        if y > 0 {
            if x > 0 {
                self.push_inside(work, x - 1, y - 1);
            }
            self.push_inside(work, x, y - 1);
            self.push_inside(work, x + 1, y - 1);
        }
        let ghost w1 = work@;
        if x > 0 {
            self.push_inside(work, x - 1, y);
        }
        self.push_inside(work, x + 1, y);
        let ghost w2 = work@;
        if x > 0 {
            self.push_inside(work, x - 1, y + 1);
        }
        self.push_inside(work, x, y + 1);
        self.push_inside(work, x + 1, y + 1);
        proof {
            assert forall|a: int, b: int|
                self.in_bounds(a, b) && #[trigger] adjacent(
                    a,
                    b,
                    x as int,
                    y as int,
                ) implies work@.contains((a as usize, b as usize)) by {
                let k = if b == y - 1 {
                    w0.len() + (if x > 0 { a - x + 1 } else { a - x })
                } else if b == y {
                    w1.len() + (if x > 0 { if a < x { 0int } else { 1int } } else { 0int })
                } else {
                    w2.len() + (if x > 0 { a - x + 1 } else { a - x })
                };
                assert(work@[k] == (a as usize, b as usize));
            }
        }
    }

    /// Reveals the safe region around the revealed cell (`x`, `y`): a revealed
    /// cell with no adjacent mine reveals its neighbours, and so on. A work list
    /// stands in for recursion. Only neighbours of mine-free surroundings are
    /// queued, so the cascade cannot reach a mine; it would skip one.
    #[verifier::rlimit(100)]
    #[verifier::spinoff_prover]
    fn reveal_from(&mut self, x: usize, y: usize)
        requires
            old(self).wf(),
            old(self).spec_initialized(),
            old(self).spec_outcome() is None,
            old(self).in_bounds(x as int, y as int),
            old(self).cell(x as int, y as int).spec_visited(),
        ensures
            final(self).wf(),
            same_setup(*old(self), *final(self)),
            final(self).spec_initialized(),
            final(self).spec_outcome() is None,
            only_reveals(*old(self), *final(self)),
            cascade_closed(*old(self), *final(self), x as int, y as int),
            cascade_reached(*old(self), *final(self), x as int, y as int),
            adjacent_mines(old(self).cells(), x as int, y as int) != 0 ==> *final(self) == *old(
                self,
            ),
    {
        let ghost a = *self;
        let ghost start = (x as int, y as int);
        if self.neighboring_mines(x, y) != 0 {
            return;
        }
        let mut work: Vec<(usize, usize)> = Vec::new();
        self.push_neighbors(&mut work, x, y);
        let ghost mut parents: Seq<(int, int)> = Seq::new(work@.len(), |i: int| start);
        let ghost mut why: Map<(int, int), (int, int)> = Map::empty();
        while work.len() > 0
            invariant
                self.wf(),
                a.wf_shape(),
                same_setup(a, *self),
                self.spec_initialized(),
                self.spec_outcome() is None,
                only_reveals(a, *self),
                self.mine_count() == a.mine_count(),
                forall|i: int|
                    0 <= i < work@.len() ==> self.in_bounds(
                        (#[trigger] work@[i]).0 as int,
                        work@[i].1 as int,
                    ) && !self.cell(work@[i].0 as int, work@[i].1 as int).spec_mine(),
                forall|cx: int, cy: int, nx: int, ny: int|
                    #![trigger adjacent(nx, ny, cx, cy), self.cell(cx, cy)]
                    self.in_bounds(cx, cy) && self.in_bounds(nx, ny) && adjacent(nx, ny, cx, cy)
                        && ((cx == x && cy == y) || (!a.cell(cx, cy).spec_visited()
                        && self.cell(cx, cy).spec_visited())) && adjacent_mines(
                        self.cells(),
                        cx,
                        cy,
                    ) == 0 ==> covered(*self, work@, nx, ny),
                parents.len() == work@.len(),
                forall|i: int|
                    0 <= i < work@.len() ==> opened_by(
                        a.cells(),
                        a,
                        *self,
                        x as int,
                        y as int,
                        ((#[trigger] work@[i]).0 as int, work@[i].1 as int),
                        parents[i],
                    ),
                forall|nx: int, ny: int|
                    #![trigger self.cell(nx, ny)]
                    self.in_bounds(nx, ny) && !a.cell(nx, ny).spec_visited() && self.cell(
                        nx,
                        ny,
                    ).spec_visited() ==> why.contains_key((nx, ny)) && opened_by(
                        a.cells(),
                        a,
                        *self,
                        x as int,
                        y as int,
                        (nx, ny),
                        why[(nx, ny)],
                    ),
            decreases count_cells(self.cells(), hidden_pred()), work.len(),
        {
            let ghost before = *self;
            let ghost wb = work@;
            let (px, py) = match work.pop() {
                Some(p) => p,
                None => { return; },
            };
            let ghost pp = parents.last();
            proof {
                parents = parents.drop_last();
            }
            proof {
                assert(work@ =~= wb.drop_last());
                assert forall|nx: int, ny: int|
                    #![trigger covered(*self, wb, nx, ny)]
                    self.in_bounds(nx, ny) && covered(*self, wb, nx, ny) && (nx != px || ny != py)
                        implies covered(
                        *self,
                        work@,
                        nx,
                        ny,
                    ) by {
                    if wb.contains((nx as usize, ny as usize)) && !self.cell(nx, ny).spec_visited()
                        && !self.cell(nx, ny).spec_flagged() {
                        let k = choose|k: int| 0 <= k < wb.len() && wb[k] == (nx as usize, ny as usize);
                        assert(self.in_bounds(wb[k].0 as int, wb[k].1 as int));
                        assert(k != wb.len() - 1);
                        assert(work@[k] == wb[k]);
                        assert(0 <= k < wb.len() - 1 && wb[k] == (nx as usize, ny as usize));
                    }
                }
            }
            if let Some(f) = grid_get(&self.fields, py, px) {
                if !f.visited() && !f.flagged() && !f.has_mine() {
                    let mut g = f;
                    g.visit();
                    grid_set(&mut self.fields, py, px, g);
                    proof {
                        let c = before.cells();
                        lemma_cells_update(c, py as int, px as int, g, mine_pred());
                        lemma_cells_update(c, py as int, px as int, g, visited_pred());
                        lemma_cells_update(c, py as int, px as int, g, hidden_pred());
                        lemma_exclusive_update(c, py as int, px as int, g);
                        lemma_cells_bound(self.cells(), self.width as int, visited_pred());
                        assert(self.cells().len() * self.width == self.width * self.height) by (nonlinear_arith)
                            requires
                                self.cells().len() == self.height,
                        ;
                    }
                    self.revealed = self.revealed + 1;
                    proof {
                        why = why.insert((px as int, py as int), pp);
                    }
                    if self.neighboring_mines(px, py) == 0 {
                        let ghost wl = work@.len();
                        self.push_neighbors(&mut work, px, py);
                        proof {
                            parents = parents + Seq::new(
                                (work@.len() - wl) as nat,
                                |i: int| (px as int, py as int),
                            );
                        }
                    }
                }
            }
            proof {
                assert forall|nx: int, ny: int|
                    #![trigger covered(*self, work@, nx, ny)]
                    self.in_bounds(nx, ny) && covered(before, wb, nx, ny) implies covered(
                        *self,
                        work@,
                        nx,
                        ny,
                    ) by {
                    if nx != px || ny != py {
                        if !before.cell(nx, ny).spec_visited() && !before.cell(nx, ny).spec_flagged() {
                            let k = choose|k: int|
                                0 <= k < wb.len() - 1 && wb[k] == (nx as usize, ny as usize);
                            assert(work@[k] == wb[k]);
                        }
                    }
                }
            }
            proof {
                assert forall|cx: int, cy: int| #[trigger] self.in_bounds(cx, cy) implies adjacent_mines(
                    self.cells(),
                    cx,
                    cy,
                ) == adjacent_mines(before.cells(), cx, cy) && (self.cell(cx, cy).spec_visited()
                    != before.cell(cx, cy).spec_visited() ==> cx == px && cy == py) by {}
                assert forall|cx: int, cy: int, nx: int, ny: int|
                    #![trigger adjacent(nx, ny, cx, cy), self.cell(cx, cy)]
                    self.in_bounds(cx, cy) && self.in_bounds(nx, ny) && adjacent(nx, ny, cx, cy)
                        && ((cx == x && cy == y) || (!a.cell(cx, cy).spec_visited()
                        && self.cell(cx, cy).spec_visited())) && adjacent_mines(
                        self.cells(),
                        cx,
                        cy,
                    ) == 0 implies covered(*self, work@, nx, ny) by {
                    assert(self.in_bounds(cx, cy));
                    if (cx == x && cy == y) || (!a.cell(cx, cy).spec_visited()
                        && before.cell(cx, cy).spec_visited()) {
                        assert(before.cell(cx, cy) == before.cells()[cy][cx]);
                        assert(covered(before, wb, nx, ny));
                        assert(self.in_bounds(nx, ny));
                    } else {
                        assert(cx == px && cy == py);
                    }
                }
                assert forall|i: int| 0 <= i < work@.len() implies opened_by(
                    a.cells(),
                    a,
                    *self,
                    x as int,
                    y as int,
                    ((#[trigger] work@[i]).0 as int, work@[i].1 as int),
                    parents[i],
                ) by {
                    if i < wb.len() - 1 {
                        assert(work@[i] == wb[i]);
                        let c = parents[i];
                        assert(opened_by(a.cells(), a, before, x as int, y as int, (wb[i].0 as int, wb[i].1 as int), c));
                        assert(before.in_bounds(c.0, c.1));
                        assert(self.cell(c.0, c.1).spec_visited());
                    } else {
                        assert(parents[i] == (px as int, py as int));
                        assert(self.in_bounds(px as int, py as int));
                        assert(a.in_bounds(px as int, py as int));
                        assert(!a.cell(px as int, py as int).spec_visited());
                        lemma_adjacent_same(a, *self, px as int, py as int);
                    }
                }
                assert forall|nx: int, ny: int|
                    #![trigger self.cell(nx, ny)]
                    self.in_bounds(nx, ny) && !a.cell(nx, ny).spec_visited() && self.cell(
                        nx,
                        ny,
                    ).spec_visited() implies why.contains_key((nx, ny)) && opened_by(
                        a.cells(),
                        a,
                        *self,
                        x as int,
                        y as int,
                        (nx, ny),
                        why[(nx, ny)],
                    ) by {
                    let c = why[(nx, ny)];
                    if nx == px && ny == py && !before.cell(nx, ny).spec_visited() {
                        assert(c == pp);
                    } else {
                        assert(before.cell(nx, ny) == self.cell(nx, ny));
                        assert(before.in_bounds(nx, ny));
                    }
                    assert(before.in_bounds(c.0, c.1));
                }
            }
        }
        proof {
            assert forall|nx: int, ny: int|
                #![trigger self.cell(nx, ny)]
                self.in_bounds(nx, ny) && (nx != x || ny != y) && !a.cell(nx, ny).spec_visited()
                    && self.cell(nx, ny).spec_visited() implies exists|cx: int, cy: int|
                opened_by(self.cells(), a, *self, x as int, y as int, (nx, ny), (cx, cy)) by {
                let c = why[(nx, ny)];
                assert(opened_by(a.cells(), a, *self, x as int, y as int, (nx, ny), c));
                lemma_adjacent_same(a, *self, c.0, c.1);
                assert(opened_by(self.cells(), a, *self, x as int, y as int, (nx, ny), (c.0, c.1)));
            }
        }
    }

    /// Places the mines for a first move at (`fx`, `fy`). `picks` are distinct
    /// candidates among the other cells in row-major order: the first ones are
    /// duds and stay clear, the last `mines` ones get a mine.
    #[verifier::rlimit(100)]
    #[verifier::spinoff_prover]
    fn populate_mines(&mut self, fx: usize, fy: usize, picks: &Vec<usize>)
        requires
            old(self).wf(),
            !old(self).spec_initialized(),
            old(self).in_bounds(fx as int, fy as int),
            valid_picks(picks@, old(self).draw_len(), old(self).total() - 1),
        ensures
            same_setup(*old(self), *final(self)),
            final(self).revealed == old(self).revealed,
            !final(self).spec_initialized(),
            final(self).spec_outcome() is None,
            final(self).cells().len() == old(self).cells().len(),
            uniform(final(self).cells(), final(self).spec_width()),
            final(self).mine_count() == final(self).spec_mines(),
            forall|x: int, y: int| #[trigger]
                old(self).in_bounds(x, y) ==> final(self).cell(x, y).spec_visited() == old(
                    self,
                ).cell(x, y).spec_visited() && final(self).cell(x, y).spec_flagged() == old(
                    self,
                ).cell(x, y).spec_flagged(),
            final(self).revealed_count() == old(self).revealed_count(),
            placed_as_drawn(*final(self), fx as int, fy as int, picks@),
    {
        let ghost a = *self;
        let w = self.width;
        let ghost h = self.height as int;
        proof {
            assert(fy * w + fx < w * h) by (nonlinear_arith)
                requires
                    fy < h,
                    fx < w,
            ;
            assert(fy * w + fx == (fy as int) * (w as int) + (fx as int));
            lemma_fundamental_div_mod_converse(fy * w + fx, w as int, fy as int, fx as int);
        }
        proof {
            lemma_cells_zero(self.cells(), mine_pred());
            assert(a.total() == w * h);
        }
        let first = fy * w + fx;
        let start = picks.len() - self.mines as usize;
        proof {
            assert forall|j: int| 0 <= j < picks@.len() implies !#[trigger] self.drawn_mine(
                first as int,
                picks@[j] as int,
            ) by {
                lemma_position(slot(picks@[j] as int, first as int), w as int, h);
                let (x, y) = cell_of(slot(picks@[j] as int, first as int), w as int);
                assert(!mine_pred()(self.cells()[y][x]));
            }
        }
        let mut i: usize = start;
        while i < picks.len()
            invariant
                start <= i <= picks.len(),
                start == picks.len() - a.spec_mines(),
                valid_picks(picks@, a.draw_len(), a.total() - 1),
                w == a.spec_width(),
                h == a.spec_height(),
                first == fy * w + fx,
                first < w * h,
                cell_of(first as int, w as int) == (fx as int, fy as int),
                a.in_bounds(fx as int, fy as int),
                self.wf_shape(),
                same_setup(a, *self),
                self.revealed == a.revealed,
                !self.spec_initialized(),
                self.spec_outcome() is None,
                self.mine_count() == i - start,
                forall|x: int, y: int| #[trigger]
                    a.in_bounds(x, y) ==> self.cell(x, y).spec_visited() == a.cell(
                        x,
                        y,
                    ).spec_visited() && self.cell(x, y).spec_flagged() == a.cell(
                        x,
                        y,
                    ).spec_flagged(),
                self.revealed_count() == a.revealed_count(),
                !self.cell(fx as int, fy as int).spec_mine(),
                forall|j: int|
                    0 <= j < picks@.len() ==> #[trigger] self.drawn_mine(first as int, picks@[j] as int)
                        == (start <= j < i),
            decreases picks.len() - i,
        {
            let k = picks[i];
            let idx = if k < first { k } else { k + 1 };
            let col = idx % w;
            let row = idx / w;
            proof {
                assert(a.total() == w * h);
                assert(idx < w * h);
                lemma_cells_distinct(idx as int, first as int, w as int, h);
                assert forall|j: int| 0 <= j < picks@.len() && j != i implies cell_of(
                    slot(#[trigger] picks@[j] as int, first as int),
                    w as int,
                ) != cell_of(idx as int, w as int) by {
                    assert(picks@[j] < w * h - 1);
                    assert(picks@[j] != k);
                    lemma_cells_distinct(slot(picks@[j] as int, first as int), idx as int, w as int, h);
                }
            }
            let ghost before = *self;
            if let Some(f) = grid_get(&self.fields, row, col) {
                let mut g = f;
                g.set_mine();
                grid_set(&mut self.fields, row, col, g);
                proof {
                    let c = before.cells();
                    lemma_cells_update(c, row as int, col as int, g, mine_pred());
                    lemma_cells_update(c, row as int, col as int, g, visited_pred());
                    assert(before.drawn_mine(first as int, picks@[i as int] as int) == false);
                }
            }
            proof {
                assert forall|j: int| 0 <= j < picks@.len() implies #[trigger] self.drawn_mine(
                    first as int,
                    picks@[j] as int,
                ) == (start <= j <= i) by {
                    lemma_position(slot(picks@[j] as int, first as int), w as int, h);
                    let (x, y) = cell_of(slot(picks@[j] as int, first as int), w as int);
                    if j != i {
                        assert(before.drawn_mine(first as int, picks@[j] as int) == (start <= j < i));
                        assert(cell_of(slot(picks@[j] as int, first as int), w as int) != cell_of(
                            idx as int,
                            w as int,
                        ));
                        assert(self.cell(x, y) == before.cell(x, y));
                    } else {
                        assert(slot(picks@[j] as int, first as int) == idx);
                        assert((x, y) == (col as int, row as int));
                        assert(self.cell(x, y).spec_mine());
                    }
                }
            }
            i = i + 1;
        }
    }

    /// Visits (`x`, `y`) with the mines of a first move drawn by `picks`:
    /// distinct candidates among the cells other than (`x`, `y`), in row-major
    /// order, the duds first and the mines last. Later moves ignore `picks`.
    #[verifier::rlimit(100)]
    #[verifier::spinoff_prover]
    pub fn visit_seeded(&mut self, x: usize, y: usize, picks: &Vec<usize>) -> (r: MoveResult)
        requires
            old(self).wf(),
            !old(self).spec_initialized() ==> valid_picks(
                picks@,
                old(self).draw_len(),
                old(self).total() - 1,
            ),
        ensures
            final(self).wf(),
            visit_post(*old(self), *final(self), x as int, y as int, r),
            !old(self).spec_initialized() && old(self).in_bounds(x as int, y as int) && !old(
                self,
            ).cell(x as int, y as int).spec_flagged() ==> placed_as_drawn(
                *final(self),
                x as int,
                y as int,
                picks@,
            ),
    {
        let ghost a = *self;
        let f = match grid_get(&self.fields, y, x) {
            None => { return MoveResult::InvalidPosition; },
            Some(f) => f,
        };
        if f.flagged() {
            return MoveResult::FieldFlagged;
        }
        proof {
            if !self.initialized {
                lemma_cells_zero(self.cells(), visited_pred());
                assert(!visited_pred()(self.cells()[y as int][x as int]));
            }
        }
        if f.visited() {
            return MoveResult::AlreadyVisited;
        }
        if let Some(o) = self.outcome {
            return o;
        }
        if !self.initialized {
            self.populate_mines(x, y, picks);
            let ghost populated = *self;
            self.initialized = true;
            proof {
                assert(self.cells() == populated.cells());
                assert forall|i: int, j: int|
                    0 <= i < self.cells().len() && 0 <= j < self.cells()[i].len() implies !((
                    #[trigger] self.cells()[i][j]).spec_visited() && self.cells()[i][j].spec_flagged()) by {
                    assert(a.in_bounds(j, i));
                    assert(a.cells()[i][j] == a.cell(j, i));
                }
                assert forall|j: int| 0 <= j < picks@.len() implies #[trigger] self.drawn_mine(
                    y * self.width + x,
                    picks@[j] as int,
                ) == populated.drawn_mine(y * self.width + x, picks@[j] as int) by {}
            }
        } else if f.has_mine() {
            let mut g = f;
            g.visit();
            proof {
                lemma_cells_update(a.cells(), y as int, x as int, g, mine_pred());
                lemma_cells_update(a.cells(), y as int, x as int, g, visited_pred());
                lemma_cells_bound(grid_rows(self.fields).update(y as int, grid_rows(self.fields)[y as int].update(x as int, g)), self.width as int, visited_pred());
                assert(self.height * self.width == self.width * self.height) by (nonlinear_arith);
            }
            grid_set(&mut self.fields, y, x, g);
            proof {
                lemma_exclusive_update(a.cells(), y as int, x as int, g);
            }
            self.revealed = self.revealed + 1;
            self.outcome = Some(MoveResult::Lost);
            return MoveResult::Lost;
        }
        let ghost placed = *self;
        proof {
            assert(a.in_bounds(x as int, y as int));
            assert(placed.cell(x as int, y as int).spec_visited() == a.cell(x as int, y as int).spec_visited());
            assert(placed.cell(x as int, y as int).spec_flagged() == a.cell(x as int, y as int).spec_flagged());
            assert(!placed.cell(x as int, y as int).spec_mine());
        }
        let f = match grid_get(&self.fields, y, x) {
            None => { return MoveResult::InvalidPosition; },
            Some(f) => f,
        };
        let mut g = f;
        g.visit();
        proof {
            lemma_cells_update(placed.cells(), y as int, x as int, g, mine_pred());
            lemma_cells_update(placed.cells(), y as int, x as int, g, visited_pred());
            lemma_cells_bound(grid_rows(self.fields).update(y as int, grid_rows(self.fields)[y as int].update(x as int, g)), self.width as int, visited_pred());
            assert(self.height * self.width == self.width * self.height) by (nonlinear_arith);
        }
        grid_set(&mut self.fields, y, x, g);
        proof {
            lemma_exclusive_update(placed.cells(), y as int, x as int, g);
        }
        self.revealed = self.revealed + 1;
        let ghost opened = *self;
        self.reveal_from(x, y);
        let ghost after = *self;
        proof {
            assert forall|i: int, j: int| #[trigger] a.in_bounds(i, j) && (i != x || j != y) implies opened.cell(i, j) == placed.cell(i, j) by {}
        }
        let won = self.revealed == self.width * self.height - self.mines as usize;
        if won {
            self.outcome = Some(MoveResult::Won);
        }
        proof {
            let b = *self;
            assert(same_setup(a, b));
            assert(opened.in_bounds(x as int, y as int));
            assert(b.cell(x as int, y as int).spec_visited());
            assert forall|i: int, j: int| #[trigger] a.in_bounds(i, j) implies {
                &&& b.cell(i, j).spec_flagged() == a.cell(i, j).spec_flagged()
                &&& a.cell(i, j).spec_visited() ==> b.cell(i, j).spec_visited()
                &&& !a.cell(i, j).spec_visited() && b.cell(i, j).spec_visited() ==> !b.cell(
                    i,
                    j,
                ).spec_mine()
            } by {
                assert(opened.in_bounds(i, j));
                assert(placed.cell(i, j).spec_visited() == a.cell(i, j).spec_visited());
                assert(placed.cell(i, j).spec_flagged() == a.cell(i, j).spec_flagged());
                if i != x || j != y {
                    assert(opened.cell(i, j) == placed.cell(i, j));
                }
            }
            assert(!b.cell(x as int, y as int).spec_mine());
            assert(reveals_safely(a, b));
            if a.spec_initialized() {
                assert forall|i: int, j: int| #[trigger] a.in_bounds(i, j) implies b.cell(i, j).spec_mine()
                    == a.cell(i, j).spec_mine() by {
                    assert(opened.in_bounds(i, j));
                    if i != x || j != y {
                        assert(opened.cell(i, j) == placed.cell(i, j));
                    }
                }
            }
            assert(a.spec_initialized() ==> mines_kept(a, b));
            assert(b.revealed == b.revealed_count());
            assert(b.mine_count() == b.spec_mines());
            assert forall|cx: int, cy: int, nx: int, ny: int|
                #![trigger adjacent(nx, ny, cx, cy), b.cell(cx, cy)]
                b.in_bounds(cx, cy) && b.in_bounds(nx, ny) && adjacent(nx, ny, cx, cy) && ((cx == x
                    && cy == y) || (!a.cell(cx, cy).spec_visited() && b.cell(cx, cy).spec_visited()))
                    && adjacent_mines(b.cells(), cx, cy) == 0 implies b.cell(nx, ny).spec_visited()
                    || b.cell(nx, ny).spec_flagged() by {
                assert(a.in_bounds(cx, cy));
                assert(b.cells() == after.cells());
                assert(after.cell(cx, cy) == b.cell(cx, cy));
                assert(adjacent(nx, ny, cx, cy));
                assert(placed.cell(cx, cy).spec_visited() == a.cell(cx, cy).spec_visited());
                if cx != x || cy != y {
                    assert(opened.cell(cx, cy) == placed.cell(cx, cy));
                }
            }
            assert(cascade_closed(a, b, x as int, y as int));
            assert forall|nx: int, ny: int|
                #![trigger b.cell(nx, ny)]
                b.in_bounds(nx, ny) && (nx != x || ny != y) && !a.cell(nx, ny).spec_visited()
                    && b.cell(nx, ny).spec_visited() implies exists|cx: int, cy: int|
                opened_by(b.cells(), a, b, x as int, y as int, (nx, ny), (cx, cy)) by {
                assert(a.in_bounds(nx, ny));
                assert(placed.cell(nx, ny).spec_visited() == a.cell(nx, ny).spec_visited());
                assert(opened.cell(nx, ny) == placed.cell(nx, ny));
                assert(after.cell(nx, ny) == b.cell(nx, ny));
                assert(after.cells() == b.cells());
                let (cx, cy) = choose|cx: int, cy: int|
                    opened_by(after.cells(), opened, after, x as int, y as int, (nx, ny), (cx, cy));
                assert(after.cell(cx, cy) == b.cell(cx, cy));
                assert(a.in_bounds(cx, cy));
                assert(placed.cell(cx, cy).spec_visited() == a.cell(cx, cy).spec_visited());
                if cx != x || cy != y {
                    assert(opened.cell(cx, cy) == placed.cell(cx, cy));
                }
                assert(opened_by(b.cells(), a, b, x as int, y as int, (nx, ny), (cx, cy)));
            }
            assert(cascade_reached(a, b, x as int, y as int));
            if adjacent_mines(b.cells(), x as int, y as int) != 0 {
                assert(after.cells() == b.cells());
                lemma_adjacent_same(opened, after, x as int, y as int);
                assert(after == opened);
                assert forall|i: int, j: int| #[trigger]
                    a.in_bounds(i, j) && (i != x || j != y) implies b.cell(i, j).spec_visited()
                    == a.cell(i, j).spec_visited() by {
                    assert(placed.cell(i, j).spec_visited() == a.cell(i, j).spec_visited());
                    assert(opened.cell(i, j) == placed.cell(i, j));
                    assert(after.cell(i, j) == b.cell(i, j));
                }
            }
        }
        proof {
            let b = *self;
            if !a.spec_initialized() {
                let w = b.spec_width();
                let first = y * w + x;
                assert(placed_as_drawn(placed, x as int, y as int, picks@));
                assert forall|j: int| 0 <= j < picks@.len() implies #[trigger] b.drawn_mine(
                    first,
                    picks@[j] as int,
                ) == placed.drawn_mine(first, picks@[j] as int) by {
                    assert(first < w * b.spec_height()) by (nonlinear_arith)
                        requires
                            first == y * w + x,
                            0 <= x < w,
                            0 <= y < b.spec_height(),
                    ;
                    lemma_position(slot(picks@[j] as int, first), w, b.spec_height());
                    let (i, k) = cell_of(slot(picks@[j] as int, first), w);
                    assert(opened.in_bounds(i, k));
                    if i != x || k != y {
                        assert(opened.cell(i, k) == placed.cell(i, k));
                    }
                }
                assert(placed_as_drawn(b, x as int, y as int, picks@));
            }
        }
        if won {
            MoveResult::Won
        } else {
            MoveResult::Continue
        }
    }

    /// Visits (`x`, `y`); on the first move the duds and mines are drawn at
    /// random.
    pub fn visit(&mut self, x: usize, y: usize) -> (r: MoveResult)
        requires
            old(self).wf(),
        ensures
            final(self).wf(),
            visit_post(*old(self), *final(self), x as int, y as int, r),
    {
        let picks = if !self.initialized {
            let n = self.width * self.height;
            let want = self.mines as usize + self.duds as usize;
            let amount = if want < n - 1 { want } else { n - 1 };
            random_sample(n - 1, amount)
        } else {
            Vec::new()
        };
        self.visit_seeded(x, y, &picks)
    }

    /// Every cell with its column and row, row by row.
    pub fn positioned_fields(&self) -> (r: Vec<(usize, usize, Field)>)
        requires
            self.wf(),
        ensures
            r@.len() == self.total(),
            forall|k: int|
                0 <= k < r@.len() ==> #[trigger] r@[k] == (
                    (k % self.spec_width()) as usize,
                    (k / self.spec_width()) as usize,
                    self.cell(k % self.spec_width(), k / self.spec_width()),
                ),
    {
        let w = self.width;
        let mut r: Vec<(usize, usize, Field)> = Vec::new();
        let mut y: usize = 0;
        while y < self.height
            invariant
                self.wf(),
                w == self.spec_width(),
                y <= self.spec_height(),
                r@.len() == y * w,
                forall|k: int|
                    0 <= k < r@.len() ==> #[trigger] r@[k] == (
                        (k % w as int) as usize,
                        (k / w as int) as usize,
                        self.cell(k % w as int, k / w as int),
                    ),
            decreases self.spec_height() - y,
        {
            let mut x: usize = 0;
            while x < w
                invariant
                    self.wf(),
                    w == self.spec_width(),
                    y < self.spec_height(),
                    x <= w,
                    r@.len() == y * w + x,
                    forall|k: int|
                        0 <= k < r@.len() ==> #[trigger] r@[k] == (
                            (k % w as int) as usize,
                            (k / w as int) as usize,
                            self.cell(k % w as int, k / w as int),
                        ),
                decreases w - x,
            {
                proof {
                    lemma_fundamental_div_mod_converse(y * w + x, w as int, y as int, x as int);
                }
                if let Some(f) = grid_get(&self.fields, y, x) {
                    r.push((x, y, f));
                }
                x = x + 1;
            }
            proof {
                assert((y + 1) * w == y * w + w) by (nonlinear_arith);
            }
            y = y + 1;
        }
        proof {
            assert(y * w == w * y) by (nonlinear_arith);
        }
        r
    }

    /// Every cell, row by row.
    pub fn fields(&self) -> (r: Vec<Field>)
        requires
            self.wf(),
        ensures
            r@.len() == self.total(),
            forall|k: int|
                0 <= k < r@.len() ==> #[trigger] r@[k] == self.cell(
                    k % self.spec_width(),
                    k / self.spec_width(),
                ),
    {
        let cells = self.positioned_fields();
        let mut r: Vec<Field> = Vec::new();
        let mut i: usize = 0;
        while i < cells.len()
            invariant
                i <= cells@.len(),
                r@.len() == i,
                forall|k: int| 0 <= k < i ==> #[trigger] r@[k] == cells@[k].2,
            decreases cells@.len() - i,
        {
            r.push(cells[i].2);
            i = i + 1;
        }
        proof {
            assert forall|k: int| 0 <= k < r@.len() implies #[trigger] r@[k] == self.cell(
                k % self.spec_width(),
                k / self.spec_width(),
            ) by {
                assert(cells@[k].2 == self.cell(k % self.spec_width(), k / self.spec_width()));
            }
        }
        r
    }

    /// A board without duds.
    pub fn new(width: usize, height: usize, mines: u8) -> (r: (Option<Self>, BoardError))
        ensures
            width < 1 ==> r == (None::<Self>, BoardError::FieldTooNarrow),
            width >= 1 && height < 1 ==> r == (None::<Self>, BoardError::FieldTooFlat),
            width >= 1 && height >= 1 && width * height > usize::MAX ==> r == (
                None::<Self>,
                BoardError::FieldTooLarge,
            ),
            width >= 1 && height >= 1 && width * height <= usize::MAX && width * height <= mines ==> r == (
                None::<Self>,
                BoardError::TooManyMines,
            ),
            width >= 1 && height >= 1 && width * height <= usize::MAX && width * height > mines ==> {
                &&& r.1 == BoardError::OK
                &&& r.0 matches Some(b) && b.wf() && b.spec_width() == width
                    && b.spec_height() == height && b.spec_mines() == mines
                    && b.spec_duds() == 0 && !b.spec_initialized()
                    && b.spec_outcome() is None
                    && forall|x: int, y: int| #[trigger]
                        b.in_bounds(x, y) ==> !b.cell(x, y).spec_mine()
                            && !b.cell(x, y).spec_visited() && !b.cell(x, y).spec_flagged()
            },
    {
        Self::with_duds(width, height, mines, 0)
    }
}

} // verus!

verus! {

/// The first visit never loses, wherever it lands and whatever was drawn.
pub proof fn lemma_first_move_safe(a: Board, b: Board, x: int, y: int, r: MoveResult)
    requires
        a.wf(),
        !a.spec_initialized(),
        visit_post(a, b, x, y, r),
    ensures
        r != MoveResult::Lost,
{
}

/// Once the mines are placed, the grid holds exactly the configured number.
pub proof fn lemma_mine_count(b: Board)
    requires
        b.wf(),
        b.spec_initialized(),
    ensures
        b.mine_count() == b.spec_mines(),
{
}

/// Flagging a revealed cell is refused and leaves the board, and so the
/// cell's flag, as it was.
pub proof fn lemma_flag_on_visited(a: Board, b: Board, x: int, y: int, r: MoveResult)
    requires
        a.wf(),
        a.in_bounds(x, y),
        a.cell(x, y).spec_visited(),
        toggle_post(a, b, x, y, r),
    ensures
        r == MoveResult::AlreadyVisited,
        b == a,
        b.cell(x, y).spec_flagged() == a.cell(x, y).spec_flagged(),
{
}

/// Visiting a flagged cell is refused and leaves the board, and so the
/// cell's hidden state, as it was.
pub proof fn lemma_visit_on_flagged(a: Board, b: Board, x: int, y: int, r: MoveResult)
    requires
        a.wf(),
        a.in_bounds(x, y),
        a.cell(x, y).spec_flagged(),
        visit_post(a, b, x, y, r),
    ensures
        r == MoveResult::FieldFlagged,
        b == a,
        b.cell(x, y).spec_visited() == a.cell(x, y).spec_visited(),
{
}

/// Visiting a revealed cell again is refused and changes nothing, the
/// outcome included.
pub proof fn lemma_revisit(a: Board, b: Board, x: int, y: int, r: MoveResult)
    requires
        a.wf(),
        a.in_bounds(x, y),
        a.cell(x, y).spec_visited(),
        visit_post(a, b, x, y, r),
    ensures
        r == MoveResult::AlreadyVisited,
        b == a,
        b.spec_outcome() == a.spec_outcome(),
{
}

/// A position off the board is refused by both moves, in every state, and
/// changes nothing.
pub proof fn lemma_invalid_position(
    a: Board,
    b: Board,
    c: Board,
    x: int,
    y: int,
    r: MoveResult,
    s: MoveResult,
)
    requires
        a.wf(),
        !a.in_bounds(x, y),
        visit_post(a, b, x, y, r),
        toggle_post(a, c, x, y, s),
    ensures
        r == MoveResult::InvalidPosition && b == a,
        s == MoveResult::InvalidPosition && c == a,
{
}

/// A visit that reveals cells wins exactly when every cell without a mine is
/// revealed; before that it continues.
pub proof fn lemma_win_detection(a: Board, b: Board, x: int, y: int, r: MoveResult)
    requires
        a.wf(),
        a.in_bounds(x, y),
        a.spec_outcome() is None,
        !a.cell(x, y).spec_flagged(),
        !a.cell(x, y).spec_visited(),
        !(a.spec_initialized() && a.cell(x, y).spec_mine()),
        visit_post(a, b, x, y, r),
    ensures
        r == MoveResult::Won <==> b.revealed_count() == b.total() - b.spec_mines(),
        r != MoveResult::Won ==> r == MoveResult::Continue,
        b.mine_count() == b.spec_mines(),
{
}

/// A visit that reveals cells stops exactly at the edge of the safe region:
/// every cell it opened that has no adjacent mine has all its neighbours
/// revealed or flagged, and every other cell it revealed touches such a cell.
pub proof fn lemma_cascade_boundary(a: Board, b: Board, x: int, y: int, r: MoveResult)
    requires
        a.wf(),
        a.in_bounds(x, y),
        a.spec_outcome() is None,
        !a.cell(x, y).spec_flagged(),
        !a.cell(x, y).spec_visited(),
        !(a.spec_initialized() && a.cell(x, y).spec_mine()),
        visit_post(a, b, x, y, r),
    ensures
        cascade_closed(a, b, x, y),
        cascade_reached(a, b, x, y),
        reveals_safely(a, b),
{
}

/// What every valid board guarantees: its shape, its counts, that no cell is
/// both revealed and flagged, and that a board before its first move is
/// untouched and still playing.
pub proof fn lemma_wf_facts(b: Board)
    requires
        b.wf(),
    ensures
        b.spec_width() >= 1,
        b.spec_height() >= 1,
        b.total() <= usize::MAX,
        b.cells().len() == b.spec_height(),
        uniform(b.cells(), b.spec_width()),
        b.spec_mines() < b.total(),
        b.spec_duds() <= b.spec_mines(),
        exclusive(b.cells()),
        !b.spec_initialized() ==> {
            &&& b.mine_count() == 0
            &&& b.revealed_count() == 0
            &&& b.spec_outcome() is None
            &&& forall|x: int, y: int| #[trigger]
                b.in_bounds(x, y) ==> !b.cell(x, y).spec_mine() && !b.cell(x, y).spec_visited()
        },
        b.spec_initialized() ==> b.mine_count() == b.spec_mines(),
        b.spec_outcome() is None || b.spec_outcome() == Some(MoveResult::Lost)
            || b.spec_outcome() == Some(MoveResult::Won),
{
    if !b.spec_initialized() {
        lemma_cells_zero(b.cells(), mine_pred());
        lemma_cells_zero(b.cells(), visited_pred());
        assert forall|x: int, y: int| #[trigger] b.in_bounds(x, y) implies !b.cell(
            x,
            y,
        ).spec_mine() && !b.cell(x, y).spec_visited() by {
            assert(!mine_pred()(b.cells()[y][x]));
            assert(!visited_pred()(b.cells()[y][x]));
        }
    }
}

/// Mines are placed once: the first visit that is not refused places exactly
/// the configured number, and no later visit or flag changes that number.
pub proof fn lemma_mines_placed_once(
    a: Board,
    b: Board,
    c: Board,
    x: int,
    y: int,
    r: MoveResult,
    s: MoveResult,
)
    requires
        a.wf(),
        b.wf(),
        c.wf(),
        visit_post(a, b, x, y, r),
        toggle_post(a, c, x, y, s),
    ensures
        a.spec_initialized() ==> b.mine_count() == a.mine_count() == b.spec_mines(),
        a.spec_initialized() ==> c.mine_count() == a.mine_count(),
        !a.spec_initialized() && a.in_bounds(x, y) && !a.cell(x, y).spec_flagged() ==> {
            &&& b.spec_initialized()
            &&& b.mine_count() == b.spec_mines() == a.spec_mines()
        },
        !a.spec_initialized() && !(a.in_bounds(x, y) && !a.cell(x, y).spec_flagged())
            ==> b.mine_count() == 0,
{
    lemma_wf_facts(a);
}

} // verus!

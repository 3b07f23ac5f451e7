//! The game engine: board model, construction, reveal with flood-fill
//! cascade, flag toggling, win/loss detection, and the display projection.
//!
//! The board is stored as one flat vector in row-major order; all
//! specifications speak of it through the per-coordinate `cell` view.

use vstd::prelude::*;

use crate::clock;
use crate::rng;

verus! {

use vstd::pervasive::VecAdditionalExecFns;

/// The three board sizes a game can be created with.
#[derive(Clone, Copy, Debug, PartialEq, Eq, Structural)]
pub enum Difficulty {
    Easy,
    Medium,
    Hard,
}

/// Whether a game is still being played or has ended. Once the engine has
/// moved a game to `Won` or `Lost`, every later mutating call is a no-op, so
/// a terminal state is never left again.
#[derive(Clone, Copy, Debug, PartialEq, Eq, Structural)]
pub enum GameState {
    Ongoing,
    Won,
    Lost,
}

/// What the player has done with one cell so far.
#[derive(Clone, Copy, Debug, PartialEq, Eq, Structural)]
pub enum CellState {
    Hidden,
    Revealed,
    Flagged,
}

/// One cell of the board. The type is public so that contracts can speak of
/// board contents, but the engine never hands cells out: callers only see
/// the display projection.
#[derive(Clone, Copy, Debug, PartialEq, Eq, Structural)]
pub struct Cell {
    pub is_mine: bool,
    pub state: CellState,
    pub adjacent_mines: u8,
}

pub open spec fn spec_rows_of(d: Difficulty) -> int {
    match d {
        Difficulty::Easy => 9,
        Difficulty::Medium => 16,
        Difficulty::Hard => 16,
    }
}

pub open spec fn spec_cols_of(d: Difficulty) -> int {
    match d {
        Difficulty::Easy => 9,
        Difficulty::Medium => 16,
        Difficulty::Hard => 30,
    }
}

pub open spec fn spec_mines_of(d: Difficulty) -> int {
    match d {
        Difficulty::Easy => 10,
        Difficulty::Medium => 40,
        Difficulty::Hard => 99,
    }
}

/// Whether `(r, c)` names a cell of an `rows` by `cols` board.
pub open spec fn in_bounds(rows: int, cols: int, r: int, c: int) -> bool {
    0 <= r < rows && 0 <= c < cols
}

/// 1 if `(r, c)` is an in-bounds mine, else 0. Out-of-bounds neighbours of a
/// border cell thus simply contribute nothing to an adjacency count.
pub open spec fn mine_at(b: Seq<Cell>, rows: int, cols: int, r: int, c: int) -> int {
    if in_bounds(rows, cols, r, c) && b[r * cols + c].is_mine {
        1
    } else {
        0
    }
}

/// The number of mines among the up-to-8 neighbours of `(r, c)`: the cells
/// at Chebyshev distance exactly 1, diagonals included.
pub open spec fn adjacent_mine_count(b: Seq<Cell>, rows: int, cols: int, r: int, c: int) -> int {
    mine_at(b, rows, cols, r - 1, c - 1) + mine_at(b, rows, cols, r - 1, c) + mine_at(
        b,
        rows,
        cols,
        r - 1,
        c + 1,
    ) + mine_at(b, rows, cols, r, c - 1) + mine_at(b, rows, cols, r, c + 1) + mine_at(
        b,
        rows,
        cols,
        r + 1,
        c - 1,
    ) + mine_at(b, rows, cols, r + 1, c) + mine_at(b, rows, cols, r + 1, c + 1)
}

/// How many cells of `b` are mines.
pub open spec fn count_mines(b: Seq<Cell>) -> int
    decreases b.len(),
{
    if b.len() == 0 {
        0
    } else {
        count_mines(b.drop_last()) + (if b.last().is_mine {
            1int
        } else {
            0int
        })
    }
}

/// A cell the player has not revealed yet: hidden or flagged.
pub open spec fn is_unrevealed(c: Cell) -> bool {
    c.state == CellState::Hidden || c.state == CellState::Flagged
}

/// How many cells of `b` are still hidden or flagged.
pub open spec fn count_unrevealed(b: Seq<Cell>) -> int
    decreases b.len(),
{
    if b.len() == 0 {
        0
    } else {
        count_unrevealed(b.drop_last()) + (if is_unrevealed(b.last()) {
            1int
        } else {
            0int
        })
    }
}

proof fn lemma_count_mines_le_len(b: Seq<Cell>)
    ensures
        0 <= count_mines(b) <= b.len(),
    decreases b.len(),
{
    if b.len() > 0 {
        lemma_count_mines_le_len(b.drop_last());
    }
}

proof fn lemma_count_mines_update(b: Seq<Cell>, i: int, c: Cell)
    requires
        0 <= i < b.len(),
    ensures
        count_mines(b.update(i, c)) == count_mines(b) + (if c.is_mine {
            1int
        } else {
            0int
        }) - (if b[i].is_mine {
            1int
        } else {
            0int
        }),
    decreases b.len(),
{
    let b2 = b.update(i, c);
    if i == b.len() - 1 {
        assert(b2.drop_last() =~= b.drop_last());
    } else {
        assert(b2.drop_last() =~= b.drop_last().update(i, c));
        lemma_count_mines_update(b.drop_last(), i, c);
    }
}

proof fn lemma_count_mines_take_step(b: Seq<Cell>, i: int)
    requires
        0 <= i < b.len(),
    ensures
        count_mines(b.take(i + 1)) == count_mines(b.take(i)) + (if b[i].is_mine {
            1int
        } else {
            0int
        }),
{
    assert(b.take(i + 1).drop_last() =~= b.take(i));
    assert(b.take(i + 1).last() == b[i]);
}

proof fn lemma_count_unrevealed_take_step(b: Seq<Cell>, i: int)
    requires
        0 <= i < b.len(),
    ensures
        count_unrevealed(b.take(i + 1)) == count_unrevealed(b.take(i)) + (if is_unrevealed(
            b[i],
        ) {
            1int
        } else {
            0int
        }),
{
    assert(b.take(i + 1).drop_last() =~= b.take(i));
    assert(b.take(i + 1).last() == b[i]);
}

/// Row-major flat indices of in-bounds coordinates stay inside the board.
proof fn lemma_flat_index(rows: int, cols: int, r: int, c: int)
    by (nonlinear_arith)
    requires
        in_bounds(rows, cols, r, c),
    ensures
        0 <= r * cols + c < rows * cols,
{
}

/// Distinct in-bounds coordinates have distinct flat indices.
proof fn lemma_flat_index_distinct(cols: int, r1: int, c1: int, r2: int, c2: int)
    by (nonlinear_arith)
    requires
        0 <= c1 < cols,
        0 <= c2 < cols,
        0 <= r1,
        0 <= r2,
        !(r1 == r2 && c1 == c2),
    ensures
        r1 * cols + c1 != r2 * cols + c2,
{
}

/// Whether the cell at `(r, c)`, if safe, carries the exact count of mines
/// among its neighbours.
pub open spec fn adj_ok(b: Seq<Cell>, rows: int, cols: int, r: int, c: int) -> bool {
    !b[r * cols + c].is_mine ==> b[r * cols + c].adjacent_mines == adjacent_mine_count(
        b,
        rows,
        cols,
        r,
        c,
    )
}

/// All in-bounds flat indices of an `rows` by `cols` board are in range.
proof fn lemma_flat_index_all(rows: int, cols: int)
    ensures
        forall|r: int, c: int| #[trigger]
            in_bounds(rows, cols, r, c) ==> 0 <= r * cols + c < rows * cols,
{
    assert forall|r: int, c: int| #[trigger] in_bounds(rows, cols, r, c) implies 0 <= r * cols + c
        < rows * cols by {
        lemma_flat_index(rows, cols, r, c);
    }
}

/// Two boards with the same mine layout assign every coordinate the same
/// adjacency count.
proof fn lemma_adjacent_count_same_mines(
    b1: Seq<Cell>,
    b2: Seq<Cell>,
    rows: int,
    cols: int,
    r: int,
    c: int,
)
    requires
        b1.len() == rows * cols,
        b2.len() == b1.len(),
        forall|j: int| 0 <= j < b1.len() ==> (#[trigger] b2[j]).is_mine == b1[j].is_mine,
    ensures
        adjacent_mine_count(b2, rows, cols, r, c) == adjacent_mine_count(b1, rows, cols, r, c),
{
    lemma_flat_index_all(rows, cols);
}

/// What one cell looks like to the player: unrevealed mines stay `Hidden`
/// or `Flagged`, a revealed safe cell carries its adjacency count, and a
/// revealed mine renders as `Bomb` with no count attached.
#[derive(Clone, Copy, Debug, PartialEq, Eq, Structural)]
pub enum DisplayCellState {
    Hidden,
    Revealed(u8),
    Bomb,
    Flagged,
}

/// One cell of the display projection.
#[derive(Clone, Copy, Debug, PartialEq, Eq, Structural)]
pub struct DisplayCell {
    pub state: DisplayCellState,
}

/// The read-only projection of a game that is handed to callers: the board
/// as the player may see it, the difficulty, the game state, and — once and
/// only once the game has ended — the milliseconds played so far.
#[derive(Debug)]
pub struct DisplayBoard {
    pub difficulty: Difficulty,
    pub cells: Vec<Vec<DisplayCell>>,
    pub game_state: GameState,
    pub time_elapsed: Option<u128>,
}

/// How a single cell projects to the display.
pub open spec fn display_of(c: Cell) -> DisplayCellState {
    match c.state {
        CellState::Hidden => DisplayCellState::Hidden,
        CellState::Flagged => DisplayCellState::Flagged,
        CellState::Revealed => if c.is_mine {
            DisplayCellState::Bomb
        } else {
            DisplayCellState::Revealed(c.adjacent_mines)
        },
    }
}

/// A running game: the board, its dimensions, when it started, how many
/// mines it holds, and whether it is still ongoing.
pub struct MinesweeperGame {
    pub difficulty: Difficulty,
    board: Vec<Cell>,
    rows: usize,
    cols: usize,
    pub start_time: std::time::Instant,
    pub number_of_bombs: usize,
    pub game_state: GameState,
}

impl MinesweeperGame {
    /// The board contents, row-major.
    pub closed spec fn b(&self) -> Seq<Cell> {
        self.board@
    }

    pub closed spec fn spec_rows(&self) -> int {
        self.rows as int
    }

    pub closed spec fn spec_cols(&self) -> int {
        self.cols as int
    }

    /// The recorded mine total, as the specifications read it.
    pub closed spec fn spec_bombs(&self) -> int {
        self.number_of_bombs as int
    }

    pub closed spec fn spec_difficulty(&self) -> Difficulty {
        self.difficulty
    }

    pub closed spec fn spec_state(&self) -> GameState {
        self.game_state
    }

    pub closed spec fn spec_start(&self) -> std::time::Instant {
        self.start_time
    }

    /// The fields a mutating operation never changes: everything but the
    /// board contents and the game state.
    pub open spec fn same_identity(&self, other: &MinesweeperGame) -> bool {
        &&& self.spec_difficulty() == other.spec_difficulty()
        &&& self.spec_rows() == other.spec_rows()
        &&& self.spec_cols() == other.spec_cols()
        &&& self.spec_bombs() == other.spec_bombs()
        &&& self.spec_start() == other.spec_start()
    }

    /// The cell at row `r`, column `c`.
    pub open spec fn cell(&self, r: int, c: int) -> Cell {
        self.b()[r * self.spec_cols() + c]
    }

    /// The board invariant every constructor establishes and every method
    /// preserves: a non-empty rectangle, the recorded mine total equal to
    /// the number of mine cells, and every safe cell carrying the exact
    /// count of mines among its up-to-8 neighbours.
    pub open spec fn well_formed(&self) -> bool {
        &&& self.spec_rows() >= 1
        &&& self.spec_cols() >= 1
        &&& self.b().len() == self.spec_rows() * self.spec_cols()
        &&& self.spec_bombs() == count_mines(self.b())
        &&& forall|r: int, c: int|
            in_bounds(self.spec_rows(), self.spec_cols(), r, c) && !(#[trigger] self.cell(
                r,
                c,
            )).is_mine ==> self.cell(r, c).adjacent_mines == adjacent_mine_count(
                self.b(),
                self.spec_rows(),
                self.spec_cols(),
                r,
                c,
            )
    }
}

/// The cell of `b` at row `r`, column `c` of a `cols`-wide board.
pub open spec fn cell_at(b: Seq<Cell>, cols: int, r: int, c: int) -> Cell {
    b[r * cols + c]
}

/// How many cells of `b` are hidden.
pub open spec fn count_hidden(b: Seq<Cell>) -> int
    decreases b.len(),
{
    if b.len() == 0 {
        0
    } else {
        count_hidden(b.drop_last()) + (if b.last().state == CellState::Hidden {
            1int
        } else {
            0int
        })
    }
}

proof fn lemma_count_hidden_update(b: Seq<Cell>, i: int, c: Cell)
    requires
        0 <= i < b.len(),
    ensures
        count_hidden(b.update(i, c)) == count_hidden(b) + (if c.state == CellState::Hidden {
            1int
        } else {
            0int
        }) - (if b[i].state == CellState::Hidden {
            1int
        } else {
            0int
        }),
    decreases b.len(),
{
    let b2 = b.update(i, c);
    if i == b.len() - 1 {
        assert(b2.drop_last() =~= b.drop_last());
    } else {
        assert(b2.drop_last() =~= b.drop_last().update(i, c));
        lemma_count_hidden_update(b.drop_last(), i, c);
    }
}

proof fn lemma_count_hidden_nonneg(b: Seq<Cell>)
    ensures
        0 <= count_hidden(b),
    decreases b.len(),
{
    if b.len() > 0 {
        lemma_count_hidden_nonneg(b.drop_last());
    }
}

/// Two distinct coordinates at Chebyshev distance exactly 1: the up-to-8
/// neighbours of a cell.
pub open spec fn chebyshev_adjacent(r1: int, c1: int, r2: int, c2: int) -> bool {
    -1 <= r1 - r2 <= 1 && -1 <= c1 - c2 <= 1 && !(r1 == r2 && c1 == c2)
}

/// The two boards hold the same mines and adjacency counts everywhere;
/// only cell states may differ.
pub open spec fn same_layout(b0: Seq<Cell>, b: Seq<Cell>) -> bool {
    &&& b.len() == b0.len()
    &&& forall|j: int|
        0 <= j < b.len() ==> (#[trigger] b[j]).is_mine == b0[j].is_mine && b[j].adjacent_mines
            == b0[j].adjacent_mines
}

/// Every cell either kept its state or moved from hidden to revealed: a
/// reveal never unreveals and never touches flags.
pub open spec fn states_monotone(b0: Seq<Cell>, b: Seq<Cell>) -> bool {
    forall|j: int|
        0 <= j < b.len() ==> (#[trigger] b[j]).state == b0[j].state || (b0[j].state
            == CellState::Hidden && b[j].state == CellState::Revealed)
}

/// The cell at `(r, c)` was hidden in `b0` and is revealed in `b`.
pub open spec fn newly_revealed_at(b0: Seq<Cell>, b: Seq<Cell>, cols: int, r: int, c: int) -> bool {
    cell_at(b0, cols, r, c).state == CellState::Hidden && cell_at(b, cols, r, c).state
        == CellState::Revealed
}

/// A cell the cascade spreads from, as the pre-reveal board `b0` had it:
/// in bounds, hidden, safe, and with no mine among its neighbours.
pub open spec fn zero_spread_cell(b0: Seq<Cell>, rows: int, cols: int, r: int, c: int) -> bool {
    &&& in_bounds(rows, cols, r, c)
    &&& cell_at(b0, cols, r, c).state == CellState::Hidden
    &&& !cell_at(b0, cols, r, c).is_mine
    &&& cell_at(b0, cols, r, c).adjacent_mines == 0
}

/// `(r, c)` can be reached from the reveal target `(tr, tc)` in at most `n`
/// steps, each leading from a hidden, safe, zero-adjacency cell of `b0` to
/// one of its neighbours: the flood-fill region of the target.
pub open spec fn cascade_reaches(
    b0: Seq<Cell>,
    rows: int,
    cols: int,
    tr: int,
    tc: int,
    r: int,
    c: int,
    n: nat,
) -> bool
    decreases n,
{
    (r == tr && c == tc) || (n > 0 && exists|pr: int, pc: int|
        chebyshev_adjacent(pr, pc, r, c) && #[trigger] zero_spread_cell(b0, rows, cols, pr, pc)
            && cascade_reaches(b0, rows, cols, tr, tc, pr, pc, (n - 1) as nat))
}

/// The frame of a reveal: dimensions, mines, counts and identity are
/// untouched, and cell states only ever move from hidden to revealed.
pub open spec fn reveal_frame(g0: MinesweeperGame, g: MinesweeperGame) -> bool {
    &&& g.same_identity(&g0)
    &&& same_layout(g0.b(), g.b())
    &&& states_monotone(g0.b(), g.b())
}

/// Soundness of the cascade: every cell this reveal newly revealed is safe
/// and lies in the flood-fill region of the target `(tr, tc)`.
pub open spec fn cascade_sound(g0: MinesweeperGame, g: MinesweeperGame, tr: int, tc: int) -> bool {
    forall|r: int, c: int|
        in_bounds(g0.spec_rows(), g0.spec_cols(), r, c) && #[trigger] newly_revealed_at(
            g0.b(),
            g.b(),
            g0.spec_cols(),
            r,
            c,
        ) ==> !cell_at(g0.b(), g0.spec_cols(), r, c).is_mine && exists|n: nat|
            cascade_reaches(g0.b(), g0.spec_rows(), g0.spec_cols(), tr, tc, r, c, n)
}

/// Completion of the cascade: a newly revealed zero-adjacency cell has no
/// hidden in-bounds neighbour left.
pub open spec fn cascade_closed(g0: MinesweeperGame, g: MinesweeperGame) -> bool {
    forall|r: int, c: int|
        in_bounds(g0.spec_rows(), g0.spec_cols(), r, c) && #[trigger] newly_revealed_at(
            g0.b(),
            g.b(),
            g0.spec_cols(),
            r,
            c,
        ) && cell_at(g.b(), g0.spec_cols(), r, c).adjacent_mines == 0 ==> forall|r2: int, c2: int|
            #[trigger] in_bounds(g0.spec_rows(), g0.spec_cols(), r2, c2) && chebyshev_adjacent(
                r,
                c,
                r2,
                c2,
            ) ==> cell_at(g.b(), g0.spec_cols(), r2, c2).state != CellState::Hidden
}

/// All in-bounds neighbours of `(r, c)` are no longer hidden in `g`.
pub open spec fn neighbours_done(g0: MinesweeperGame, g: MinesweeperGame, r: int, c: int) -> bool {
    forall|r2: int, c2: int|
        #[trigger] in_bounds(g0.spec_rows(), g0.spec_cols(), r2, c2) && chebyshev_adjacent(
            r,
            c,
            r2,
            c2,
        ) ==> cell_at(g.b(), g0.spec_cols(), r2, c2).state != CellState::Hidden
}

/// The part of the cascade loop invariant that never wavers: both games
/// well-formed, the frame intact, the target newly revealed, every stack
/// entry a revealed spread cell, and everything revealed so far sound.
pub open spec fn cascade_base(
    g0: MinesweeperGame,
    g: MinesweeperGame,
    st: Seq<(usize, usize)>,
    tr: int,
    tc: int,
) -> bool {
    &&& g0.well_formed()
    &&& g.well_formed()
    &&& reveal_frame(g0, g)
    &&& g.spec_state() == g0.spec_state()
    &&& in_bounds(g0.spec_rows(), g0.spec_cols(), tr, tc)
    &&& newly_revealed_at(g0.b(), g.b(), g0.spec_cols(), tr, tc)
    &&& forall|k: int|
        0 <= k < st.len() ==> zero_spread_cell(
            g0.b(),
            g0.spec_rows(),
            g0.spec_cols(),
            (#[trigger] st[k]).0 as int,
            st[k].1 as int,
        ) && cell_at(g.b(), g0.spec_cols(), st[k].0 as int, st[k].1 as int).state
            == CellState::Revealed
    &&& cascade_sound(g0, g, tr, tc)
}

/// Every newly revealed zero-adjacency cell is still waiting on the stack
/// or has all its neighbours handled already.
pub open spec fn cascade_closed_stack(
    g0: MinesweeperGame,
    g: MinesweeperGame,
    st: Seq<(usize, usize)>,
) -> bool {
    forall|r: int, c: int|
        in_bounds(g0.spec_rows(), g0.spec_cols(), r, c) && #[trigger] newly_revealed_at(
            g0.b(),
            g.b(),
            g0.spec_cols(),
            r,
            c,
        ) && cell_at(g.b(), g0.spec_cols(), r, c).adjacent_mines == 0 ==> st.contains(
            (r as usize, c as usize),
        ) || neighbours_done(g0, g, r, c)
}

/// As `cascade_closed_stack`, but one cell — the one whose neighbours are
/// being expanded right now — is excused.
pub open spec fn cascade_closed_except(
    g0: MinesweeperGame,
    g: MinesweeperGame,
    st: Seq<(usize, usize)>,
    pr: int,
    pc: int,
) -> bool {
    forall|r: int, c: int|
        in_bounds(g0.spec_rows(), g0.spec_cols(), r, c) && #[trigger] newly_revealed_at(
            g0.b(),
            g.b(),
            g0.spec_cols(),
            r,
            c,
        ) && cell_at(g.b(), g0.spec_cols(), r, c).adjacent_mines == 0 ==> st.contains(
            (r as usize, c as usize),
        ) || (r == pr && c == pc) || neighbours_done(g0, g, r, c)
}

proof fn lemma_frame_trans(b0: Seq<Cell>, b1: Seq<Cell>, b2: Seq<Cell>)
    requires
        same_layout(b0, b1),
        same_layout(b1, b2),
        states_monotone(b0, b1),
        states_monotone(b1, b2),
    ensures
        same_layout(b0, b2),
        states_monotone(b0, b2),
{
    assert forall|j: int| 0 <= j < b2.len() implies (#[trigger] b2[j]).is_mine == b0[j].is_mine
        && b2[j].adjacent_mines == b0[j].adjacent_mines && (b2[j].state == b0[j].state || (
    b0[j].state == CellState::Hidden && b2[j].state == CellState::Revealed)) by {
        assert(b1[j].is_mine == b0[j].is_mine && b1[j].adjacent_mines == b0[j].adjacent_mines);
        assert(b1[j].state == b0[j].state || (b0[j].state == CellState::Hidden && b1[j].state
            == CellState::Revealed));
    }
}

/// Well-formedness reads only the board, its dimensions and the mine
/// total, so it carries over to any game that agrees on those.
proof fn lemma_wf_same_board(g1: MinesweeperGame, g2: MinesweeperGame)
    requires
        g1.well_formed(),
        g2.b() == g1.b(),
        g2.spec_rows() == g1.spec_rows(),
        g2.spec_cols() == g1.spec_cols(),
        g2.spec_bombs() == g1.spec_bombs(),
    ensures
        g2.well_formed(),
{
    assert forall|r: int, c: int|
        in_bounds(g2.spec_rows(), g2.spec_cols(), r, c) && !(#[trigger] g2.cell(
            r,
            c,
        )).is_mine implies g2.cell(r, c).adjacent_mines == adjacent_mine_count(
        g2.b(),
        g2.spec_rows(),
        g2.spec_cols(),
        r,
        c,
    ) by {
        assert(g2.cell(r, c) == g1.cell(r, c));
    }
}

/// The board after one flag toggle at `(r, c)`: hidden becomes flagged,
/// flagged becomes hidden, and a revealed cell or an out-of-bounds
/// coordinate leaves the board as it was.
pub open spec fn flag_toggled(b: Seq<Cell>, rows: int, cols: int, r: int, c: int) -> Seq<Cell> {
    if !in_bounds(rows, cols, r, c) {
        b
    } else {
        let i = r * cols + c;
        match b[i].state {
            CellState::Hidden => b.update(i, Cell { state: CellState::Flagged, ..b[i] }),
            CellState::Flagged => b.update(i, Cell { state: CellState::Hidden, ..b[i] }),
            CellState::Revealed => b,
        }
    }
}

impl MinesweeperGame {
    /// Toggles the flag mark on `(row, col)`. Out-of-bounds coordinates and
    /// revealed cells are silently left alone, and a finished game is not
    /// touched at all.
    pub fn flag_cell(&mut self, row: usize, col: usize)
        requires
            old(self).well_formed(),
        ensures
            final(self).well_formed(),
            final(self).same_identity(old(self)),
            final(self).spec_state() == old(self).spec_state(),
            old(self).spec_state() == GameState::Ongoing ==> final(self).b() == flag_toggled(
                old(self).b(),
                old(self).spec_rows(),
                old(self).spec_cols(),
                row as int,
                col as int,
            ),
            old(self).spec_state() != GameState::Ongoing ==> final(self).b() == old(self).b(),
    {
        if self.game_state != GameState::Ongoing {
            return ;
        }
        if row >= self.rows || col >= self.cols {
            return ;
        }
        let n = self.board.len();
        proof {
            lemma_flat_index(self.spec_rows(), self.spec_cols(), row as int, col as int);
        }
        let i = row * self.cols + col;
        let cell = self.board[i];
        match cell.state {
            CellState::Hidden => {
                self.set_cell_state_only(i, Cell { state: CellState::Flagged, ..cell });
            },
            CellState::Flagged => {
                self.set_cell_state_only(i, Cell { state: CellState::Hidden, ..cell });
            },
            CellState::Revealed => {},
        }
    }

    /// Overwrites cell `i` with a cell of the same mine flag and adjacency
    /// count, and shows that the board invariant survives.
    fn set_cell_state_only(&mut self, i: usize, c: Cell)
        requires
            old(self).well_formed(),
            i < old(self).b().len(),
            c.is_mine == old(self).b()[i as int].is_mine,
            c.adjacent_mines == old(self).b()[i as int].adjacent_mines,
        ensures
            final(self).well_formed(),
            final(self).b() == old(self).b().update(i as int, c),
            final(self).same_identity(old(self)),
            final(self).spec_state() == old(self).spec_state(),
    {
        self.board.set(i, c);
        proof {
            let b0 = old(self).b();
            let b1 = self.b();
            lemma_count_mines_update(b0, i as int, c);
            assert forall|r: int, c2: int|
                in_bounds(self.spec_rows(), self.spec_cols(), r, c2) && !(#[trigger] self.cell(
                    r,
                    c2,
                )).is_mine implies self.cell(r, c2).adjacent_mines == adjacent_mine_count(
                self.b(),
                self.spec_rows(),
                self.spec_cols(),
                r,
                c2,
            ) by {
                lemma_flat_index(self.spec_rows(), self.spec_cols(), r, c2);
                assert(self.cell(r, c2).is_mine == old(self).cell(r, c2).is_mine);
                assert(self.cell(r, c2).adjacent_mines == old(self).cell(r, c2).adjacent_mines);
                lemma_adjacent_count_same_mines(
                    b0,
                    b1,
                    self.spec_rows(),
                    self.spec_cols(),
                    r,
                    c2,
                );
            }
        }
    }

    /// Builds a board of `rows * cols` hidden, mine-free cells.
    fn blank_board(rows: usize, cols: usize) -> (b: Vec<Cell>)
        requires
            rows >= 1,
            cols >= 1,
            rows * cols <= usize::MAX,
        ensures
            b@.len() == rows * cols,
            forall|j: int|
                0 <= j < b@.len() ==> #[trigger] b@[j] == (Cell {
                    is_mine: false,
                    state: CellState::Hidden,
                    adjacent_mines: 0,
                }),
            count_mines(b@) == 0,
    {
        let total = rows * cols;
        let mut b: Vec<Cell> = Vec::new();
        let mut j: usize = 0;
        while j < total
            invariant
                j <= total,
                b@.len() == j,
                forall|k: int|
                    0 <= k < j ==> #[trigger] b@[k] == (Cell {
                        is_mine: false,
                        state: CellState::Hidden,
                        adjacent_mines: 0,
                    }),
                count_mines(b@) == 0,
            decreases total - j,
        {
            let ghost prev = b@;
            b.push(Cell { is_mine: false, state: CellState::Hidden, adjacent_mines: 0 });
            proof {
                assert(b@.drop_last() =~= prev);
            }
            j = j + 1;
        }
        b
    }

    /// Counts the mines among the up-to-8 neighbours of `(row, col)` by
    /// probing each direction that stays on the board.
    #[verifier::rlimit(60)]
    fn count_adjacent(board: &Vec<Cell>, rows: usize, cols: usize, row: usize, col: usize) -> (n:
        u8)
        requires
            board@.len() == rows * cols,
            row < rows,
            col < cols,
        ensures
            n as int == adjacent_mine_count(
                board@,
                rows as int,
                cols as int,
                row as int,
                col as int,
            ),
            n <= 8,
    {
        let total = board.len();
        proof {
            let ri = rows as int;
            let ci = cols as int;
            let r = row as int;
            let c = col as int;
            if row > 0 && col > 0 {
                lemma_flat_index(ri, ci, r - 1, c - 1);
            }
            if row > 0 {
                lemma_flat_index(ri, ci, r - 1, c);
            }
            if row > 0 && col + 1 < cols {
                lemma_flat_index(ri, ci, r - 1, c + 1);
            }
            if col > 0 {
                lemma_flat_index(ri, ci, r, c - 1);
            }
            if col + 1 < cols {
                lemma_flat_index(ri, ci, r, c + 1);
            }
            if row + 1 < rows && col > 0 {
                lemma_flat_index(ri, ci, r + 1, c - 1);
            }
            if row + 1 < rows {
                lemma_flat_index(ri, ci, r + 1, c);
            }
            if row + 1 < rows && col + 1 < cols {
                lemma_flat_index(ri, ci, r + 1, c + 1);
            }
        }
        let mut n: u8 = 0;
        if row > 0 && col > 0 {
            if board[(row - 1) * cols + (col - 1)].is_mine {
                n = n + 1;
            }
        }
        if row > 0 {
            if board[(row - 1) * cols + col].is_mine {
                n = n + 1;
            }
        }
        if row > 0 && col + 1 < cols {
            if board[(row - 1) * cols + (col + 1)].is_mine {
                n = n + 1;
            }
        }
        if col > 0 {
            if board[row * cols + (col - 1)].is_mine {
                n = n + 1;
            }
        }
        if col + 1 < cols {
            if board[row * cols + (col + 1)].is_mine {
                n = n + 1;
            }
        }
        if row + 1 < rows && col > 0 {
            if board[(row + 1) * cols + (col - 1)].is_mine {
                n = n + 1;
            }
        }
        if row + 1 < rows {
            if board[(row + 1) * cols + col].is_mine {
                n = n + 1;
            }
        }
        if row + 1 < rows && col + 1 < cols {
            if board[(row + 1) * cols + (col + 1)].is_mine {
                n = n + 1;
            }
        }
        n
    }

    /// Writes into every safe cell the exact count of mines among its
    /// neighbours; mines and every cell's state are left alone.
    #[verifier::rlimit(60)]
    fn fill_adjacency(board: &mut Vec<Cell>, rows: usize, cols: usize)
        requires
            rows >= 1,
            cols >= 1,
            old(board)@.len() == rows * cols,
        ensures
            final(board)@.len() == old(board)@.len(),
            forall|j: int|
                0 <= j < old(board)@.len() ==> (#[trigger] final(board)@[j]).is_mine
                    == old(board)@[j].is_mine && final(board)@[j].state == old(board)@[j].state,
            count_mines(final(board)@) == count_mines(old(board)@),
            forall|r: int, c: int| #[trigger]
                in_bounds(rows as int, cols as int, r, c) ==> adj_ok(
                    final(board)@,
                    rows as int,
                    cols as int,
                    r,
                    c,
                ),
    {
        let total = board.len();
        let mut r: usize = 0;
        while r < rows
            invariant
                r <= rows,
                rows >= 1,
                cols >= 1,
                rows * cols <= usize::MAX,
                board@.len() == rows * cols,
                forall|j: int|
                    0 <= j < board@.len() ==> (#[trigger] board@[j]).is_mine
                        == old(board)@[j].is_mine && board@[j].state == old(board)@[j].state,
                count_mines(board@) == count_mines(old(board)@),
                forall|r2: int, c2: int| #[trigger]
                    in_bounds(rows as int, cols as int, r2, c2) && r2 < r ==> adj_ok(
                        board@,
                        rows as int,
                        cols as int,
                        r2,
                        c2,
                    ),
            decreases rows - r,
        {
            let mut c: usize = 0;
            while c < cols
                invariant
                    r < rows,
                    c <= cols,
                    rows >= 1,
                    cols >= 1,
                    rows * cols <= usize::MAX,
                    board@.len() == rows * cols,
                    forall|j: int|
                        0 <= j < board@.len() ==> (#[trigger] board@[j]).is_mine
                            == old(board)@[j].is_mine && board@[j].state == old(board)@[j].state,
                    count_mines(board@) == count_mines(old(board)@),
                    forall|r2: int, c2: int| #[trigger]
                        in_bounds(rows as int, cols as int, r2, c2) && (r2 < r || (r2 == r && c2
                            < c)) ==> adj_ok(board@, rows as int, cols as int, r2, c2),
                decreases cols - c,
            {
                proof {
                    lemma_flat_index(rows as int, cols as int, r as int, c as int);
                }
                let i = r * cols + c;
                let cell = board[i];
                if !cell.is_mine {
                    let n = Self::count_adjacent(board, rows, cols, r, c);
                    let ghost prev = board@;
                    board.set(i, Cell { adjacent_mines: n, ..cell });
                    proof {
                        lemma_count_mines_update(prev, i as int, board@[i as int]);
                        assert forall|r2: int, c2: int| #[trigger]
                            in_bounds(rows as int, cols as int, r2, c2) && (r2 < r || (r2 == r
                                && c2 <= c)) implies adj_ok(
                            board@,
                            rows as int,
                            cols as int,
                            r2,
                            c2,
                        ) by {
                            lemma_flat_index(rows as int, cols as int, r2, c2);
                            if !(r2 == r as int && c2 == c as int) {
                                lemma_flat_index_distinct(
                                    cols as int,
                                    r2,
                                    c2,
                                    r as int,
                                    c as int,
                                );
                            }
                            lemma_adjacent_count_same_mines(
                                prev,
                                board@,
                                rows as int,
                                cols as int,
                                r2,
                                c2,
                            );
                        }
                    }
                } else {
                    proof {
                        assert forall|r2: int, c2: int| #[trigger]
                            in_bounds(rows as int, cols as int, r2, c2) && (r2 < r || (r2 == r
                                && c2 <= c)) implies adj_ok(
                            board@,
                            rows as int,
                            cols as int,
                            r2,
                            c2,
                        ) by {
                            lemma_flat_index(rows as int, cols as int, r2, c2);
                        }
                    }
                }
                c = c + 1;
            }
            r = r + 1;
        }
    }


    /// Resolves a difficulty to its `(rows, cols, mines)` triple.
    fn dimensions(difficulty: Difficulty) -> (d: (usize, usize, usize))
        ensures
            d.0 == spec_rows_of(difficulty),
            d.1 == spec_cols_of(difficulty),
            d.2 == spec_mines_of(difficulty),
    {
        match difficulty {
            Difficulty::Easy => (9, 9, 10),
            Difficulty::Medium => (16, 16, 40),
            Difficulty::Hard => (16, 30, 99),
        }
    }

    /// Turns the `t`-th cell that is not yet a mine into a mine. Everything
    /// else about every cell is left alone.
    fn place_one_mine(board: &mut Vec<Cell>, t: usize)
        requires
            t < old(board)@.len() - count_mines(old(board)@),
        ensures
            final(board)@.len() == old(board)@.len(),
            count_mines(final(board)@) == count_mines(old(board)@) + 1,
            forall|k: int|
                0 <= k < old(board)@.len() ==> (#[trigger] final(board)@[k]).state
                    == old(board)@[k].state && final(board)@[k].adjacent_mines
                    == old(board)@[k].adjacent_mines,
    {
        let total = board.len();
        let mut j: usize = 0;
        let mut seen: usize = 0;
        while j < total
            invariant
                j <= total,
                total == board@.len(),
                board@ == old(board)@,
                seen <= t,
                t < total - count_mines(board@),
                seen == j - count_mines(board@.take(j as int)),
                count_mines(board@.take(j as int)) <= j,
            decreases total - j,
        {
            proof {
                lemma_count_mines_take_step(board@, j as int);
                lemma_count_mines_le_len(board@.take(j as int));
                lemma_count_mines_le_len(board@.take(j + 1));
            }
            let cell = board[j];
            if !cell.is_mine {
                if seen == t {
                    board.set(j, Cell { is_mine: true, ..cell });
                    proof {
                        lemma_count_mines_update(old(board)@, j as int, board@[j as int]);
                    }
                    return ;
                }
                seen = seen + 1;
            }
            j = j + 1;
        }
        proof {
            assert(board@.take(total as int) =~= board@);
            assert(false);
        }
    }

    /// Starts a fresh game of the given difficulty: a hidden board of the
    /// difficulty's dimensions holding exactly its mine count, with every
    /// safe cell carrying the exact count of mines among its neighbours.
    /// Each mine lands on a uniformly random cell among those not yet
    /// mined, so every set of distinct cells of the right size is equally
    /// likely, exactly as rejection sampling would leave it.
    pub fn new(difficulty: Difficulty) -> (g: MinesweeperGame)
        ensures
            g.well_formed(),
            g.spec_difficulty() == difficulty,
            g.spec_rows() == spec_rows_of(difficulty),
            g.spec_cols() == spec_cols_of(difficulty),
            g.spec_bombs() == spec_mines_of(difficulty),
            count_mines(g.b()) == spec_mines_of(difficulty),
            g.spec_state() == GameState::Ongoing,
            forall|r: int, c: int| #[trigger]
                in_bounds(g.spec_rows(), g.spec_cols(), r, c) ==> g.cell(r, c).state
                    == CellState::Hidden,
    {
        let (rows, cols, mines) = Self::dimensions(difficulty);
        let mut board = Self::blank_board(rows, cols);
        proof {
            lemma_flat_index_all(rows as int, cols as int);
        }
        let total = board.len();
        let mut placed: usize = 0;
        while placed < mines
            invariant
                rows >= 1,
                cols >= 1,
                total == rows * cols,
                rows * cols <= usize::MAX,
                board@.len() == rows * cols,
                placed <= mines,
                mines <= board@.len(),
                placed == count_mines(board@),
                forall|j: int|
                    0 <= j < board@.len() ==> (#[trigger] board@[j]).state == CellState::Hidden
                        && board@[j].adjacent_mines == 0,
            decreases mines - placed,
        {
            let t = rng::random_below(total - placed);
            let ghost prevb = board@;
            Self::place_one_mine(&mut board, t);
            proof {
                assert forall|j: int| 0 <= j < board@.len() implies (#[trigger] board@[j]).state
                    == CellState::Hidden && board@[j].adjacent_mines == 0 by {
                    assert(prevb[j].state == CellState::Hidden && prevb[j].adjacent_mines == 0);
                }
            }
            placed = placed + 1;
        }
        let ghost placed_board = board@;
        Self::fill_adjacency(&mut board, rows, cols);
        let ghost bfinal = board@;
        let g = MinesweeperGame {
            difficulty,
            board,
            rows,
            cols,
            start_time: clock::instant_now(),
            number_of_bombs: mines,
            game_state: GameState::Ongoing,
        };
        proof {
            assert(g.b() == bfinal);
            assert forall|r: int, c: int|
                in_bounds(g.spec_rows(), g.spec_cols(), r, c) && !(#[trigger] g.cell(
                    r,
                    c,
                )).is_mine implies g.cell(r, c).adjacent_mines == adjacent_mine_count(
                g.b(),
                g.spec_rows(),
                g.spec_cols(),
                r,
                c,
            ) by {
                assert(in_bounds(rows as int, cols as int, r, c));
                assert(adj_ok(g.b(), rows as int, cols as int, r, c));
            }
            assert forall|r: int, c: int| #[trigger]
                in_bounds(g.spec_rows(), g.spec_cols(), r, c) implies g.cell(r, c).state
                == CellState::Hidden by {
                lemma_flat_index(rows as int, cols as int, r, c);
                let i = r * (cols as int) + c;
                assert(bfinal[i].state == placed_board[i].state);
            }
        }
        g
    }

    /// Builds a game whose mines sit exactly at the in-bounds entries of
    /// `mines`; duplicates and out-of-bounds entries are ignored. Every cell
    /// starts hidden and the game starts ongoing. This deterministic
    /// constructor backs tests that need a known layout.
    pub fn with_mines(rows: usize, cols: usize, mines: &Vec<(usize, usize)>, difficulty: Difficulty) -> (g: MinesweeperGame)
        requires
            rows >= 1,
            cols >= 1,
            rows * cols <= usize::MAX,
        ensures
            g.well_formed(),
            g.spec_rows() == rows,
            g.spec_cols() == cols,
            g.spec_difficulty() == difficulty,
            g.spec_state() == GameState::Ongoing,
            forall|r: int, c: int| #[trigger]
                in_bounds(rows as int, cols as int, r, c) ==> g.cell(r, c).state
                    == CellState::Hidden,
            forall|r: int, c: int| #[trigger]
                in_bounds(rows as int, cols as int, r, c) ==> (g.cell(r, c).is_mine
                    <==> mines@.contains((r as usize, c as usize))),
    {
        let mut board = Self::blank_board(rows, cols);
        proof {
            lemma_flat_index_all(rows as int, cols as int);
        }
        let mut bombs: usize = 0;
        let mut k: usize = 0;
        let m = mines.len();
        while k < m
            invariant
                k <= m,
                m == mines@.len(),
                rows >= 1,
                cols >= 1,
                rows * cols <= usize::MAX,
                board@.len() == rows * cols,
                bombs <= board@.len(),
                bombs == count_mines(board@),
                forall|j: int|
                    0 <= j < board@.len() ==> (#[trigger] board@[j]).state == CellState::Hidden
                        && board@[j].adjacent_mines == 0,
                forall|r: int, c: int| #[trigger]
                    in_bounds(rows as int, cols as int, r, c) ==> (board@[r * (cols as int)
                        + c].is_mine <==> mines@.take(k as int).contains((r as usize, c as usize))),
            decreases m - k,
        {
            let (mr, mc) = mines[k];
            let ghost prevb = board@;
            if mr < rows && mc < cols {
                proof {
                    lemma_flat_index(rows as int, cols as int, mr as int, mc as int);
                }
                let i = mr * cols + mc;
                let cell = board[i];
                if !cell.is_mine {
                    board.set(i, Cell { is_mine: true, ..cell });
                    proof {
                        lemma_count_mines_update(prevb, i as int, board@[i as int]);
                        lemma_count_mines_le_len(board@);
                    }
                    bombs = bombs + 1;
                }
            }
            proof {
                assert(mines@.take(k + 1).drop_last() =~= mines@.take(k as int));
                assert(mines@.take(k + 1).last() == mines@[k as int]);
                assert forall|r: int, c: int| #[trigger]
                    in_bounds(rows as int, cols as int, r, c) implies (board@[r * (cols as int)
                    + c].is_mine <==> mines@.take(k + 1).contains(
                    (r as usize, c as usize),
                )) by {
                    lemma_flat_index(rows as int, cols as int, r, c);
                    let p = (r as usize, c as usize);
                    if mines@.take(k + 1).contains(p) {
                        let j = choose|j: int| 0 <= j < k + 1 && #[trigger] mines@.take(k + 1)[j] == p;
                        if j < k {
                            assert(mines@.take(k as int).contains(p)) by {
                                assert(mines@.take(k as int)[j] == p);
                            }
                        }
                    }
                    if !(r == mr as int && c == mc as int) {
                        if mr < rows && mc < cols {
                            lemma_flat_index_distinct(cols as int, r, c, mr as int, mc as int);
                        }
                        if prevb[r * (cols as int) + c].is_mine {
                            assert(mines@.take(k as int).contains(p));
                            let j2 = choose|j2: int|
                                0 <= j2 < k && #[trigger] mines@.take(k as int)[j2] == p;
                            assert(mines@.take(k + 1)[j2] == p);
                        }
                    } else {
                        if mr < rows && mc < cols {
                            assert(mines@.take(k + 1)[k as int] == p);
                        }
                    }
                }
            }
            k = k + 1;
        }
        proof {
            assert(mines@.take(m as int) =~= mines@);
        }
        let ghost placed = board@;
        Self::fill_adjacency(&mut board, rows, cols);
        let ghost bfinal = board@;
        let g = MinesweeperGame {
            difficulty,
            board,
            rows,
            cols,
            start_time: clock::instant_now(),
            number_of_bombs: bombs,
            game_state: GameState::Ongoing,
        };
        proof {
            assert(g.b() == bfinal);
            assert forall|r: int, c: int|
                in_bounds(g.spec_rows(), g.spec_cols(), r, c) && !(#[trigger] g.cell(
                    r,
                    c,
                )).is_mine implies g.cell(r, c).adjacent_mines == adjacent_mine_count(
                g.b(),
                g.spec_rows(),
                g.spec_cols(),
                r,
                c,
            ) by {
                assert(in_bounds(rows as int, cols as int, r, c));
                assert(adj_ok(g.b(), rows as int, cols as int, r, c));
            }
            assert forall|r: int, c: int| #[trigger]
                in_bounds(rows as int, cols as int, r, c) implies g.cell(r, c).state
                == CellState::Hidden && (g.cell(r, c).is_mine <==> mines@.contains(
                (r as usize, c as usize),
            )) by {
                lemma_flat_index(rows as int, cols as int, r, c);
                let i = r * (cols as int) + c;
                assert(bfinal[i].is_mine == placed[i].is_mine && bfinal[i].state
                    == placed[i].state);
            }
        }
        g
    }


    /// Checks for a win: a game still ongoing whose hidden-or-flagged count
    /// has come down to exactly the mine total is declared `Won`. A loss is
    /// detected at reveal time, so reaching that count means every safe
    /// cell has been revealed without ever revealing a mine. Terminal
    /// states are sticky and the board itself is never touched.
    pub fn validate_board(&mut self)
        requires
            old(self).well_formed(),
        ensures
            final(self).well_formed(),
            final(self).b() == old(self).b(),
            final(self).same_identity(old(self)),
            final(self).spec_state() == (if old(self).spec_state() == GameState::Ongoing
                && count_unrevealed(old(self).b()) == old(self).spec_bombs() {
                GameState::Won
            } else {
                old(self).spec_state()
            }),
    {
        if self.game_state != GameState::Ongoing {
            return ;
        }
        let n = self.board.len();
        let mut count: usize = 0;
        let mut i: usize = 0;
        while i < n
            invariant
                *self == *old(self),
                old(self).well_formed(),
                i <= n,
                n == self.b().len(),
                count <= i,
                count == count_unrevealed(self.b().take(i as int)),
            decreases n - i,
        {
            let st = self.board[i].state;
            proof {
                lemma_count_unrevealed_take_step(self.b(), i as int);
            }
            if st == CellState::Hidden || st == CellState::Flagged {
                count = count + 1;
            }
            i = i + 1;
        }
        proof {
            assert(self.b().take(n as int) =~= self.b());
        }
        if count == self.number_of_bombs {
            self.game_state = GameState::Won;
        }
        proof {
            lemma_wf_same_board(*old(self), *self);
        }
    }
}

impl MinesweeperGame {
    /// Reveals the single cell `(row, col)` if it is in bounds and hidden,
    /// following the general rule: a revealed mine loses the game on the
    /// spot, a revealed safe cell leaves the game state alone. Returns
    /// whether a safe zero-adjacency cell was just revealed, i.e. whether a
    /// cascade should spread from here.
    fn reveal_single(&mut self, row: usize, col: usize) -> (was_zero: bool)
        requires
            old(self).well_formed(),
        ensures
            final(self).well_formed(),
            final(self).same_identity(old(self)),
            same_layout(old(self).b(), final(self).b()),
            states_monotone(old(self).b(), final(self).b()),
            !(in_bounds(old(self).spec_rows(), old(self).spec_cols(), row as int, col as int)
                && cell_at(old(self).b(), old(self).spec_cols(), row as int, col as int).state
                == CellState::Hidden) ==> *final(self) == *old(self) && !was_zero,
            (in_bounds(old(self).spec_rows(), old(self).spec_cols(), row as int, col as int)
                && cell_at(old(self).b(), old(self).spec_cols(), row as int, col as int).state
                == CellState::Hidden) ==> {
                let i = (row as int) * old(self).spec_cols() + (col as int);
                let c0 = old(self).b()[i];
                &&& final(self).b() == old(self).b().update(
                    i,
                    Cell { state: CellState::Revealed, ..c0 },
                )
                &&& count_hidden(final(self).b()) == count_hidden(old(self).b()) - 1
                &&& (c0.is_mine ==> final(self).spec_state() == GameState::Lost && !was_zero)
                &&& (!c0.is_mine ==> final(self).spec_state() == old(self).spec_state()
                    && was_zero == (c0.adjacent_mines == 0))
            },
            count_hidden(final(self).b()) <= count_hidden(old(self).b()),
    {
        if row >= self.rows || col >= self.cols {
            return false;
        }
        let n = self.board.len();
        proof {
            lemma_flat_index(self.spec_rows(), self.spec_cols(), row as int, col as int);
        }
        let i = row * self.cols + col;
        let cell = self.board[i];
        if cell.state != CellState::Hidden {
            return false;
        }
        self.set_cell_state_only(i, Cell { state: CellState::Revealed, ..cell });
        proof {
            lemma_count_hidden_update(
                old(self).b(),
                i as int,
                Cell { state: CellState::Revealed, ..cell },
            );
        }
        if cell.is_mine {
            let ghost mid = *self;
            self.game_state = GameState::Lost;
            proof {
                lemma_wf_same_board(mid, *self);
            }
            return false;
        }
        cell.adjacent_mines == 0
    }

    /// Handles one neighbour candidate of the spread cell `(pr, pc)`
    /// during a cascade: if the candidate is in bounds and hidden it is
    /// revealed — provably safe, since it neighbours a zero-adjacency cell
    /// — and queued if it is itself a spread cell.
    #[verifier::rlimit(100)]
    fn cascade_visit(
        &mut self,
        nr: usize,
        nc: usize,
        pr: usize,
        pc: usize,
        stack: &mut Vec<(usize, usize)>,
        g0: Ghost<MinesweeperGame>,
        tr: Ghost<usize>,
        tc: Ghost<usize>,
    )
        requires
            cascade_base(g0@, *old(self), old(stack)@, tr@ as int, tc@ as int),
            cascade_closed_except(g0@, *old(self), old(stack)@, pr as int, pc as int),
            zero_spread_cell(g0@.b(), g0@.spec_rows(), g0@.spec_cols(), pr as int, pc as int),
            cell_at(old(self).b(), g0@.spec_cols(), pr as int, pc as int).state
                == CellState::Revealed,
            pr as int - 1 <= nr as int <= pr as int + 1,
            pc as int - 1 <= nc as int <= pc as int + 1,
        ensures
            cascade_base(g0@, *final(self), final(stack)@, tr@ as int, tc@ as int),
            cascade_closed_except(g0@, *final(self), final(stack)@, pr as int, pc as int),
            cell_at(final(self).b(), g0@.spec_cols(), pr as int, pc as int).state
                == CellState::Revealed,
            same_layout(old(self).b(), final(self).b()),
            states_monotone(old(self).b(), final(self).b()),
            in_bounds(g0@.spec_rows(), g0@.spec_cols(), nr as int, nc as int) ==> cell_at(
                final(self).b(),
                g0@.spec_cols(),
                nr as int,
                nc as int,
            ).state != CellState::Hidden,
            count_hidden(final(self).b()) <= count_hidden(old(self).b()),
            final(stack)@.len() >= old(stack)@.len(),
            count_hidden(final(self).b()) == count_hidden(old(self).b()) ==> final(stack)@
                == old(stack)@,
    {
        let rows = self.rows;
        let cols = self.cols;
        if nr >= rows || nc >= cols {
            return ;
        }
        let n = self.board.len();
        proof {
            lemma_flat_index(rows as int, cols as int, nr as int, nc as int);
            lemma_flat_index(rows as int, cols as int, pr as int, pc as int);
        }
        let i = nr * cols + nc;
        let cellv = self.board[i];
        if cellv.state == CellState::Hidden {
            proof {
                let gr = g0@.spec_rows();
                let gc = g0@.spec_cols();
                let pri = pr as int;
                let pci = pc as int;
                let nri = nr as int;
                let nci = nc as int;
                let b = self.b();
                assert(cell_at(b, gc, pri, pci).is_mine == cell_at(
                    g0@.b(),
                    gc,
                    pri,
                    pci,
                ).is_mine);
                assert(cell_at(b, gc, pri, pci).adjacent_mines == cell_at(
                    g0@.b(),
                    gc,
                    pri,
                    pci,
                ).adjacent_mines);
                assert(self.spec_rows() == gr && self.spec_cols() == gc);
                assert(self.cell(pri, pci) == cell_at(b, gc, pri, pci));
                assert(!self.cell(pri, pci).is_mine);
                assert(self.cell(pri, pci).adjacent_mines == 0);
                assert(adjacent_mine_count(b, gr, gc, pri, pci) == 0);
                assert(mine_at(b, gr, gc, pri - 1, pci - 1) == 0 && mine_at(
                    b,
                    gr,
                    gc,
                    pri - 1,
                    pci,
                ) == 0 && mine_at(b, gr, gc, pri - 1, pci + 1) == 0 && mine_at(
                    b,
                    gr,
                    gc,
                    pri,
                    pci - 1,
                ) == 0 && mine_at(b, gr, gc, pri, pci + 1) == 0 && mine_at(
                    b,
                    gr,
                    gc,
                    pri + 1,
                    pci - 1,
                ) == 0 && mine_at(b, gr, gc, pri + 1, pci) == 0 && mine_at(
                    b,
                    gr,
                    gc,
                    pri + 1,
                    pci + 1,
                ) == 0);
                assert(!(nri == pri && nci == pci));
                assert(mine_at(b, gr, gc, nri, nci) == 0);
                assert(!cell_at(b, gc, nri, nci).is_mine);
            }
            let ghost gmid = *self;
            let ghost stmid = stack@;
            let was_zero = self.reveal_single(nr, nc);
            if was_zero {
                stack.push((nr, nc));
            }
            proof {
                let gr = g0@.spec_rows();
                let gc = g0@.spec_cols();
                let nri = nr as int;
                let nci = nc as int;
                let tri = tr@ as int;
                let tci = tc@ as int;
                let b0 = g0@.b();
                let bm = gmid.b();
                let bn = self.b();
                lemma_frame_trans(b0, bm, bn);
                lemma_count_hidden_nonneg(bn);
                lemma_flat_index(gr, gc, tri, tci);
                assert(cell_at(bm, gc, tri, tci).state == CellState::Revealed);
                assert(cell_at(bn, gc, tri, tci).state == CellState::Revealed);
                assert(cell_at(b0, gc, nri, nci).state == CellState::Hidden);
                assert(newly_revealed_at(b0, bn, gc, nri, nci));
                // soundness: the one newly revealed cell is reached through
                // the spread cell `(pr, pc)`, everything older was already
                // covered.
                assert(newly_revealed_at(b0, bm, gc, pr as int, pc as int));
                let pn = choose|m: nat|
                    cascade_reaches(b0, gr, gc, tri, tci, pr as int, pc as int, m);
                assert(cascade_reaches(b0, gr, gc, tri, tci, nri, nci, pn + 1)) by {
                    assert(chebyshev_adjacent(pr as int, pc as int, nri, nci));
                    assert(zero_spread_cell(b0, gr, gc, pr as int, pc as int));
                }
                assert forall|r: int, c: int|
                    in_bounds(gr, gc, r, c) && #[trigger] newly_revealed_at(
                        b0,
                        bn,
                        gc,
                        r,
                        c,
                    ) implies !cell_at(b0, gc, r, c).is_mine && exists|m: nat|
                    cascade_reaches(b0, gr, gc, tri, tci, r, c, m) by {
                    lemma_flat_index(gr, gc, r, c);
                    if r == nri && c == nci {
                        assert(cascade_reaches(b0, gr, gc, tri, tci, r, c, pn + 1));
                    } else {
                        lemma_flat_index_distinct(gc, r, c, nri, nci);
                        assert(newly_revealed_at(b0, bm, gc, r, c));
                    }
                }
                // stack entries: the old ones persist, the pushed one is a
                // spread cell that is now revealed.
                assert forall|k: int|
                    0 <= k < stack@.len() implies zero_spread_cell(
                        b0,
                        gr,
                        gc,
                        (#[trigger] stack@[k]).0 as int,
                        stack@[k].1 as int,
                    ) && cell_at(bn, gc, stack@[k].0 as int, stack@[k].1 as int).state
                    == CellState::Revealed by {
                    if k < stmid.len() {
                        assert(stack@[k] == stmid[k]);
                        lemma_flat_index(gr, gc, stmid[k].0 as int, stmid[k].1 as int);
                    } else {
                        assert(stack@[k] == (nr, nc));
                    }
                }
                // closedness modulo the pending cell.
                assert forall|r: int, c: int|
                    in_bounds(gr, gc, r, c) && #[trigger] newly_revealed_at(b0, bn, gc, r, c)
                        && cell_at(bn, gc, r, c).adjacent_mines == 0 implies stack@.contains(
                    (r as usize, c as usize),
                ) || (r == pr as int && c == pc as int) || neighbours_done(g0@, *self, r, c) by {
                    lemma_flat_index(gr, gc, r, c);
                    if r == nri && c == nci {
                        if was_zero {
                            assert(stack@[stack@.len() - 1] == (nr, nc));
                            assert(stack@.contains((r as usize, c as usize)));
                        } else {
                            assert(cell_at(bm, gc, r, c).adjacent_mines != 0);
                        }
                    } else {
                        lemma_flat_index_distinct(gc, r, c, nri, nci);
                        assert(newly_revealed_at(b0, bm, gc, r, c));
                        assert(cell_at(bm, gc, r, c).adjacent_mines == cell_at(
                            bn,
                            gc,
                            r,
                            c,
                        ).adjacent_mines);
                        if stmid.contains((r as usize, c as usize)) {
                            let k = choose|k: int|
                                0 <= k < stmid.len() && #[trigger] stmid[k] == (
                                r as usize,
                                c as usize,
                                );
                            assert(stack@[k] == (r as usize, c as usize));
                            assert(stack@.contains((r as usize, c as usize)));
                        } else if !(r == pr as int && c == pc as int) {
                            assert(neighbours_done(g0@, gmid, r, c));
                            assert forall|r2: int, c2: int|
                                #[trigger] in_bounds(gr, gc, r2, c2) && chebyshev_adjacent(
                                    r,
                                    c,
                                    r2,
                                    c2,
                                ) implies cell_at(bn, gc, r2, c2).state
                                != CellState::Hidden by {
                                lemma_flat_index(gr, gc, r2, c2);
                                assert(cell_at(bm, gc, r2, c2).state != CellState::Hidden);
                            }
                        }
                    }
                }
            }
        }
    }

    /// Expands one spread cell of the cascade: visits all its up-to-8
    /// neighbours, with the grid edge clamped by saturating arithmetic
    /// exactly as a neighbour coordinate of a border cell clamps onto the
    /// cell itself, where the already-revealed no-op check absorbs it.
    #[verifier::rlimit(100)]
    fn cascade_expand(
        &mut self,
        pr: usize,
        pc: usize,
        stack: &mut Vec<(usize, usize)>,
        g0: Ghost<MinesweeperGame>,
        tr: Ghost<usize>,
        tc: Ghost<usize>,
    )
        requires
            cascade_base(g0@, *old(self), old(stack)@, tr@ as int, tc@ as int),
            cascade_closed_except(g0@, *old(self), old(stack)@, pr as int, pc as int),
            zero_spread_cell(g0@.b(), g0@.spec_rows(), g0@.spec_cols(), pr as int, pc as int),
            cell_at(old(self).b(), g0@.spec_cols(), pr as int, pc as int).state
                == CellState::Revealed,
        ensures
            cascade_base(g0@, *final(self), final(stack)@, tr@ as int, tc@ as int),
            cascade_closed_stack(g0@, *final(self), final(stack)@),
            count_hidden(final(self).b()) <= count_hidden(old(self).b()),
            count_hidden(final(self).b()) == count_hidden(old(self).b()) ==> final(stack)@
                == old(stack)@,
    {
        let r_up = pr.saturating_sub(1);
        let c_left = pc.saturating_sub(1);
        let r_down = pr.saturating_add(1);
        let c_right = pc.saturating_add(1);
        let ghost s0 = *self;
        self.cascade_visit(r_up, c_left, pr, pc, stack, g0, tr, tc);
        let ghost s1 = *self;
        self.cascade_visit(r_up, pc, pr, pc, stack, g0, tr, tc);
        let ghost s2 = *self;
        self.cascade_visit(r_up, c_right, pr, pc, stack, g0, tr, tc);
        let ghost s3 = *self;
        self.cascade_visit(pr, c_left, pr, pc, stack, g0, tr, tc);
        let ghost s4 = *self;
        self.cascade_visit(pr, c_right, pr, pc, stack, g0, tr, tc);
        let ghost s5 = *self;
        self.cascade_visit(r_down, c_left, pr, pc, stack, g0, tr, tc);
        let ghost s6 = *self;
        self.cascade_visit(r_down, pc, pr, pc, stack, g0, tr, tc);
        let ghost s7 = *self;
        self.cascade_visit(r_down, c_right, pr, pc, stack, g0, tr, tc);
        proof {
            let gr = g0@.spec_rows();
            let gc = g0@.spec_cols();
            let pri = pr as int;
            let pci = pc as int;
            let b8 = self.b();
            lemma_frame_trans(s6.b(), s7.b(), b8);
            lemma_frame_trans(s5.b(), s6.b(), b8);
            lemma_frame_trans(s4.b(), s5.b(), b8);
            lemma_frame_trans(s3.b(), s4.b(), b8);
            lemma_frame_trans(s2.b(), s3.b(), b8);
            lemma_frame_trans(s1.b(), s2.b(), b8);
            lemma_frame_trans(s0.b(), s1.b(), b8);
            assert forall|r2: int, c2: int|
                #[trigger] in_bounds(gr, gc, r2, c2) && chebyshev_adjacent(
                    pri,
                    pci,
                    r2,
                    c2,
                ) implies cell_at(b8, gc, r2, c2).state != CellState::Hidden by {
                lemma_flat_index(gr, gc, r2, c2);
                if r2 == pri - 1 && c2 == pci - 1 {
                    assert(cell_at(s1.b(), gc, r2, c2).state != CellState::Hidden);
                } else if r2 == pri - 1 && c2 == pci {
                    assert(cell_at(s2.b(), gc, r2, c2).state != CellState::Hidden);
                } else if r2 == pri - 1 && c2 == pci + 1 {
                    assert(cell_at(s3.b(), gc, r2, c2).state != CellState::Hidden);
                } else if r2 == pri && c2 == pci - 1 {
                    assert(cell_at(s4.b(), gc, r2, c2).state != CellState::Hidden);
                } else if r2 == pri && c2 == pci + 1 {
                    assert(cell_at(s5.b(), gc, r2, c2).state != CellState::Hidden);
                } else if r2 == pri + 1 && c2 == pci - 1 {
                    assert(cell_at(s6.b(), gc, r2, c2).state != CellState::Hidden);
                } else if r2 == pri + 1 && c2 == pci {
                    assert(cell_at(s7.b(), gc, r2, c2).state != CellState::Hidden);
                } else {
                    assert(r2 == pri + 1 && c2 == pci + 1);
                    assert(cell_at(b8, gc, r2, c2).state != CellState::Hidden);
                }
            }
            assert(neighbours_done(g0@, *self, pri, pci));
            assert forall|r: int, c: int|
                in_bounds(gr, gc, r, c) && #[trigger] newly_revealed_at(
                    g0@.b(),
                    b8,
                    gc,
                    r,
                    c,
                ) && cell_at(b8, gc, r, c).adjacent_mines == 0 implies stack@.contains(
                (r as usize, c as usize),
            ) || neighbours_done(g0@, *self, r, c) by {
                lemma_flat_index(gr, gc, r, c);
            }
        }
    }

    /// Reveals `(row, col)`. Out-of-bounds coordinates, cells that are not
    /// hidden, and finished games are silently left alone. Revealing a mine
    /// loses the game on the spot without touching any other cell.
    /// Revealing a safe cell with no neighbouring mine floods outward,
    /// driven by an explicit work list: it reveals exactly the connected
    /// region reachable from the target through hidden zero-adjacency safe
    /// cells, together with that region's boundary, and nothing else —
    /// `cascade_sound` says nothing outside the region is revealed,
    /// `cascade_closed` that no hidden cell on its rim is left over.
    #[verifier::rlimit(100)]
    pub fn reveal_cell(&mut self, row: usize, col: usize)
        requires
            old(self).well_formed(),
        ensures
            final(self).well_formed(),
            final(self).same_identity(old(self)),
            same_layout(old(self).b(), final(self).b()),
            states_monotone(old(self).b(), final(self).b()),
            (old(self).spec_state() != GameState::Ongoing || !in_bounds(
                old(self).spec_rows(),
                old(self).spec_cols(),
                row as int,
                col as int,
            ) || cell_at(old(self).b(), old(self).spec_cols(), row as int, col as int).state
                != CellState::Hidden) ==> *final(self) == *old(self),
            (old(self).spec_state() == GameState::Ongoing && in_bounds(
                old(self).spec_rows(),
                old(self).spec_cols(),
                row as int,
                col as int,
            ) && cell_at(old(self).b(), old(self).spec_cols(), row as int, col as int).state
                == CellState::Hidden) ==> {
                let i = (row as int) * old(self).spec_cols() + (col as int);
                let c0 = old(self).b()[i];
                &&& (c0.is_mine ==> final(self).spec_state() == GameState::Lost && final(self).b()
                    == old(self).b().update(i, Cell { state: CellState::Revealed, ..c0 }))
                &&& (!c0.is_mine ==> final(self).spec_state() == GameState::Ongoing && cell_at(
                    final(self).b(),
                    old(self).spec_cols(),
                    row as int,
                    col as int,
                ).state == CellState::Revealed && cascade_sound(
                    *old(self),
                    *final(self),
                    row as int,
                    col as int,
                ) && cascade_closed(*old(self), *final(self)))
                &&& (!c0.is_mine && c0.adjacent_mines != 0 ==> final(self).b() == old(self).b().update(
                    i,
                    Cell { state: CellState::Revealed, ..c0 },
                ))
            },
    {
        if self.game_state != GameState::Ongoing {
            return ;
        }
        if row >= self.rows || col >= self.cols {
            return ;
        }
        let n = self.board.len();
        proof {
            lemma_flat_index(self.spec_rows(), self.spec_cols(), row as int, col as int);
        }
        let i = row * self.cols + col;
        let cellv = self.board[i];
        if cellv.state != CellState::Hidden {
            return ;
        }
        let was_zero = self.reveal_single(row, col);
        if cellv.is_mine {
            return ;
        }
        if !was_zero {
            proof {
                let gr = old(self).spec_rows();
                let gc = old(self).spec_cols();
                let b0 = old(self).b();
                let bn = self.b();
                assert forall|r: int, c: int|
                    in_bounds(gr, gc, r, c) && #[trigger] newly_revealed_at(
                        b0,
                        bn,
                        gc,
                        r,
                        c,
                    ) implies !cell_at(b0, gc, r, c).is_mine && exists|m: nat|
                    cascade_reaches(b0, gr, gc, row as int, col as int, r, c, m) by {
                    lemma_flat_index(gr, gc, r, c);
                    if r == row as int && c == col as int {
                        assert(cascade_reaches(b0, gr, gc, row as int, col as int, r, c, 0nat));
                    } else {
                        lemma_flat_index_distinct(gc, r, c, row as int, col as int);
                    }
                }
                assert forall|r: int, c: int|
                    in_bounds(gr, gc, r, c) && #[trigger] newly_revealed_at(
                        b0,
                        bn,
                        gc,
                        r,
                        c,
                    ) && cell_at(bn, gc, r, c).adjacent_mines == 0 implies false by {
                    lemma_flat_index(gr, gc, r, c);
                    if !(r == row as int && c == col as int) {
                        lemma_flat_index_distinct(gc, r, c, row as int, col as int);
                    }
                }
            }
            return ;
        }
        let mut stack: Vec<(usize, usize)> = Vec::new();
        stack.push((row, col));
        proof {
            let gr = old(self).spec_rows();
            let gc = old(self).spec_cols();
            let b0 = old(self).b();
            let bn = self.b();
            assert(stack@[0] == (row, col));
            assert forall|r: int, c: int|
                in_bounds(gr, gc, r, c) && #[trigger] newly_revealed_at(
                    b0,
                    bn,
                    gc,
                    r,
                    c,
                ) implies !cell_at(b0, gc, r, c).is_mine && exists|m: nat|
                cascade_reaches(b0, gr, gc, row as int, col as int, r, c, m) by {
                lemma_flat_index(gr, gc, r, c);
                if r == row as int && c == col as int {
                    assert(cascade_reaches(b0, gr, gc, row as int, col as int, r, c, 0nat));
                } else {
                    lemma_flat_index_distinct(gc, r, c, row as int, col as int);
                }
            }
            assert forall|r: int, c: int|
                in_bounds(gr, gc, r, c) && #[trigger] newly_revealed_at(b0, bn, gc, r, c)
                    && cell_at(bn, gc, r, c).adjacent_mines == 0 implies stack@.contains(
                (r as usize, c as usize),
            ) by {
                lemma_flat_index(gr, gc, r, c);
                if !(r == row as int && c == col as int) {
                    lemma_flat_index_distinct(gc, r, c, row as int, col as int);
                } else {
                    assert(stack@.contains((row, col)));
                }
            }
        }
        while stack.len() != 0
            invariant
                old(self).well_formed(),
                cascade_base(*old(self), *self, stack@, row as int, col as int),
                cascade_closed_stack(*old(self), *self, stack@),
            decreases count_hidden(self.b()), stack@.len(),
        {
            proof {
                lemma_count_hidden_nonneg(self.b());
            }
            let ghost st_pre = stack@;
            let top = stack.pop().unwrap();
            let tr2 = top.0;
            let tc2 = top.1;
            proof {
                let gr = old(self).spec_rows();
                let gc = old(self).spec_cols();
                assert(top == st_pre[st_pre.len() - 1]);
                assert forall|r: int, c: int|
                    in_bounds(gr, gc, r, c) && #[trigger] newly_revealed_at(
                        old(self).b(),
                        self.b(),
                        gc,
                        r,
                        c,
                    ) && cell_at(self.b(), gc, r, c).adjacent_mines == 0 implies stack@.contains(
                    (r as usize, c as usize),
                ) || (r == tr2 as int && c == tc2 as int) || neighbours_done(
                    *old(self),
                    *self,
                    r,
                    c,
                ) by {
                    let p = (r as usize, c as usize);
                    if st_pre.contains(p) {
                        let k = choose|k: int|
                            0 <= k < st_pre.len() && #[trigger] st_pre[k] == p;
                        if k < st_pre.len() - 1 {
                            assert(stack@[k] == p);
                            assert(stack@.contains(p));
                        } else {
                            assert(p == top);
                        }
                    }
                }
            }
            self.cascade_expand(
                tr2,
                tc2,
                &mut stack,
                Ghost(*old(self)),
                Ghost(row),
                Ghost(col),
            );
            proof {
                lemma_count_hidden_nonneg(self.b());
            }
        }
        proof {
            let gr = old(self).spec_rows();
            let gc = old(self).spec_cols();
            assert forall|r: int, c: int|
                in_bounds(gr, gc, r, c) && #[trigger] newly_revealed_at(
                    old(self).b(),
                    self.b(),
                    gc,
                    r,
                    c,
                ) && cell_at(self.b(), gc, r, c).adjacent_mines == 0 implies neighbours_done(
                *old(self),
                *self,
                r,
                c,
            ) by {
                assert(!stack@.contains((r as usize, c as usize)));
            }
        }
    }

    /// The read-only projection handed to callers: each cell as the player
    /// may see it, the difficulty, the game state, and the elapsed
    /// milliseconds — present exactly when the game has ended, measured at
    /// projection time. The game itself is never touched.
    pub fn get_display_board(&self) -> (d: DisplayBoard)
        requires
            self.well_formed(),
        ensures
            d.difficulty == self.spec_difficulty(),
            d.game_state == self.spec_state(),
            d.cells@.len() == self.spec_rows(),
            forall|r: int|
                0 <= r < self.spec_rows() ==> (#[trigger] d.cells@[r])@.len()
                    == self.spec_cols(),
            forall|r: int, c: int| #[trigger]
                in_bounds(self.spec_rows(), self.spec_cols(), r, c) ==> d.cells@[r]@[c].state
                    == display_of(self.cell(r, c)),
            d.time_elapsed is Some <==> self.spec_state() != GameState::Ongoing,
    {
        let rows = self.rows;
        let cols = self.cols;
        let n = self.board.len();
        let mut cells: Vec<Vec<DisplayCell>> = Vec::new();
        let mut r: usize = 0;
        while r < rows
            invariant
                r <= rows,
                rows == self.spec_rows(),
                cols == self.spec_cols(),
                self.well_formed(),
                self.b().len() <= usize::MAX,
                cells@.len() == r,
                forall|r2: int| 0 <= r2 < r ==> (#[trigger] cells@[r2])@.len() == cols,
                forall|r2: int, c2: int|
                    0 <= r2 < r && 0 <= c2 < cols ==> (#[trigger] cells@[r2]@[c2]).state
                        == display_of(self.cell(r2, c2)),
            decreases rows - r,
        {
            let mut rowv: Vec<DisplayCell> = Vec::new();
            let mut c: usize = 0;
            while c < cols
                invariant
                    r < rows,
                    c <= cols,
                    rows == self.spec_rows(),
                    cols == self.spec_cols(),
                    self.well_formed(),
                    self.b().len() <= usize::MAX,
                    rowv@.len() == c,
                    forall|c2: int|
                        0 <= c2 < c ==> (#[trigger] rowv@[c2]).state == display_of(
                            self.cell(r as int, c2),
                        ),
                decreases cols - c,
            {
                proof {
                    lemma_flat_index(rows as int, cols as int, r as int, c as int);
                }
                let cell = self.board[r * cols + c];
                let st = match cell.state {
                    CellState::Hidden => DisplayCellState::Hidden,
                    CellState::Flagged => DisplayCellState::Flagged,
                    CellState::Revealed => if cell.is_mine {
                        DisplayCellState::Bomb
                    } else {
                        DisplayCellState::Revealed(cell.adjacent_mines)
                    },
                };
                rowv.push(DisplayCell { state: st });
                c = c + 1;
            }
            cells.push(rowv);
            r = r + 1;
        }
        let time_elapsed = match self.game_state {
            GameState::Won | GameState::Lost => Some(
                clock::duration_as_millis(&clock::instant_elapsed(&self.start_time)),
            ),
            GameState::Ongoing => None,
        };
        DisplayBoard { difficulty: self.difficulty, cells, game_state: self.game_state, time_elapsed }
    }
}

/// Toggling a flag twice restores the board: flagging a hidden cell and
/// flagging it again leaves every cell exactly as it was, for any
/// coordinate, in or out of bounds.
pub proof fn lemma_flag_toggle(b: Seq<Cell>, rows: int, cols: int, r: int, c: int)
    requires
        rows >= 1,
        cols >= 1,
        b.len() == rows * cols,
    ensures
        flag_toggled(flag_toggled(b, rows, cols, r, c), rows, cols, r, c) == b,
{
    if in_bounds(rows, cols, r, c) {
        lemma_flat_index(rows, cols, r, c);
        let i = r * cols + c;
        let b1 = flag_toggled(b, rows, cols, r, c);
        let b2 = flag_toggled(b1, rows, cols, r, c);
        match b[i].state {
            CellState::Hidden => {
                assert(b2 =~= b);
            },
            CellState::Flagged => {
                assert(b2 =~= b);
            },
            CellState::Revealed => {},
        }
    }
}

/// The win check is reached exactly when the board is cleared: on a board
/// where the revealed cells are precisely the safe cells, the count of
/// hidden-or-flagged cells equals the count of mines, so `validate_board`
/// on an ongoing game moves it to `Won`.
pub proof fn lemma_all_safe_revealed_wins(b: Seq<Cell>)
    requires
        forall|j: int| 0 <= j < b.len() ==> ((#[trigger] b[j]).state == CellState::Revealed
            <==> !b[j].is_mine),
    ensures
        count_unrevealed(b) == count_mines(b),
    decreases b.len(),
{
    if b.len() > 0 {
        lemma_all_safe_revealed_wins(b.drop_last());
    }
}

/// Completeness of the flood fill: after revealing a hidden safe target on
/// an ongoing game, every cell of the cascade region — reachable from the
/// target through cells that were hidden, safe and zero-adjacency — that
/// was itself hidden is now revealed. Together with `cascade_sound` in the
/// ensures of `reveal_cell`, the revealed cells are exactly that region.
pub proof fn lemma_cascade_complete(
    g0: MinesweeperGame,
    g: MinesweeperGame,
    tr: int,
    tc: int,
    r: int,
    c: int,
    n: nat,
)
    requires
        g0.well_formed(),
        reveal_frame(g0, g),
        cascade_closed(g0, g),
        in_bounds(g0.spec_rows(), g0.spec_cols(), tr, tc),
        newly_revealed_at(g0.b(), g.b(), g0.spec_cols(), tr, tc),
        cascade_reaches(g0.b(), g0.spec_rows(), g0.spec_cols(), tr, tc, r, c, n),
        in_bounds(g0.spec_rows(), g0.spec_cols(), r, c),
        cell_at(g0.b(), g0.spec_cols(), r, c).state == CellState::Hidden,
    ensures
        cell_at(g.b(), g0.spec_cols(), r, c).state == CellState::Revealed,
    decreases n,
{
    let gr = g0.spec_rows();
    let gc = g0.spec_cols();
    lemma_flat_index(gr, gc, r, c);
    lemma_flat_index(gr, gc, tr, tc);
    if r == tr && c == tc {
        assert(cell_at(g.b(), gc, r, c).state == CellState::Revealed);
    } else {
        let (pr, pc) = choose|pr: int, pc: int|
            chebyshev_adjacent(pr, pc, r, c) && #[trigger] zero_spread_cell(
                g0.b(),
                gr,
                gc,
                pr,
                pc,
            ) && cascade_reaches(g0.b(), gr, gc, tr, tc, pr, pc, (n - 1) as nat);
        lemma_flat_index(gr, gc, pr, pc);
        lemma_cascade_complete(g0, g, tr, tc, pr, pc, (n - 1) as nat);
        assert(newly_revealed_at(g0.b(), g.b(), gc, pr, pc));
        assert(cell_at(g.b(), gc, pr, pc).adjacent_mines == cell_at(
            g0.b(),
            gc,
            pr,
            pc,
        ).adjacent_mines);
        assert(neighbours_done(g0, g, pr, pc));
        assert(cell_at(g.b(), gc, r, c).state != CellState::Hidden);
        assert(cell_at(g.b(), gc, r, c).state == cell_at(g0.b(), gc, r, c).state || (cell_at(
            g0.b(),
            gc,
            r,
            c,
        ).state == CellState::Hidden && cell_at(g.b(), gc, r, c).state
            == CellState::Revealed));
    }
}

} // verus!

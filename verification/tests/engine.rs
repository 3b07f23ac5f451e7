use minesweeper::parse_difficulty;
use minesweeper::Difficulty;
use minesweeper::DisplayBoard;
use minesweeper::DisplayCellState;
use minesweeper::GameState;
use minesweeper::MinesweeperGame;

fn display_states(d: &DisplayBoard) -> Vec<Vec<DisplayCellState>> {
    d.cells
        .iter()
        .map(|row| row.iter().map(|cell| cell.state).collect())
        .collect()
}

#[test]
fn easy_board_shape_and_counts() {
    let g = MinesweeperGame::new(Difficulty::Easy);
    assert_eq!(g.number_of_bombs, 10);
    let d = g.get_display_board();
    assert_eq!(d.difficulty, Difficulty::Easy);
    assert_eq!(d.game_state, GameState::Ongoing);
    assert_eq!(d.time_elapsed, None);
    assert_eq!(d.cells.len(), 9);
    for row in &d.cells {
        assert_eq!(row.len(), 9);
        for cell in row {
            assert_eq!(cell.state, DisplayCellState::Hidden);
        }
    }
}

#[test]
fn medium_and_hard_dimensions() {
    let m = MinesweeperGame::new(Difficulty::Medium);
    assert_eq!(m.number_of_bombs, 40);
    let dm = m.get_display_board();
    assert_eq!(dm.cells.len(), 16);
    assert_eq!(dm.cells[0].len(), 16);

    let h = MinesweeperGame::new(Difficulty::Hard);
    assert_eq!(h.number_of_bombs, 99);
    let dh = h.get_display_board();
    assert_eq!(dh.cells.len(), 16);
    assert_eq!(dh.cells[0].len(), 30);
}

#[test]
fn parse_difficulty_accepts_the_three_names() {
    assert_eq!(parse_difficulty("easy"), Some(Difficulty::Easy));
    assert_eq!(parse_difficulty("medium"), Some(Difficulty::Medium));
    assert_eq!(parse_difficulty("hard"), Some(Difficulty::Hard));
}

#[test]
fn parse_difficulty_rejects_everything_else() {
    assert_eq!(parse_difficulty(""), None);
    assert_eq!(parse_difficulty("EASY"), None);
    assert_eq!(parse_difficulty("impossible"), None);
    assert_eq!(parse_difficulty("easy "), None);
}

#[test]
fn flag_toggle_roundtrip() {
    let mines = vec![(1usize, 1usize)];
    let mut g = MinesweeperGame::with_mines(2, 2, &mines, Difficulty::Easy);
    g.flag_cell(0, 0);
    let d1 = g.get_display_board();
    assert_eq!(d1.cells[0][0].state, DisplayCellState::Flagged);
    g.flag_cell(0, 0);
    let d2 = g.get_display_board();
    assert_eq!(d2.cells[0][0].state, DisplayCellState::Hidden);
}

#[test]
fn flag_and_reveal_on_revealed_cell_are_noops() {
    let mines = vec![(1usize, 1usize)];
    let mut g = MinesweeperGame::with_mines(2, 2, &mines, Difficulty::Easy);
    g.reveal_cell(0, 0);
    let before = display_states(&g.get_display_board());
    assert_eq!(before[0][0], DisplayCellState::Revealed(1));
    g.flag_cell(0, 0);
    assert_eq!(display_states(&g.get_display_board()), before);
    g.reveal_cell(0, 0);
    assert_eq!(display_states(&g.get_display_board()), before);
    assert_eq!(g.game_state, GameState::Ongoing);
}

#[test]
fn out_of_bounds_coordinates_are_noops() {
    let mines = vec![(1usize, 1usize)];
    let mut g = MinesweeperGame::with_mines(2, 2, &mines, Difficulty::Easy);
    g.reveal_cell(2, 0);
    g.reveal_cell(0, 2);
    g.flag_cell(2, 0);
    g.flag_cell(17, 23);
    let d = g.get_display_board();
    for row in &d.cells {
        for cell in row {
            assert_eq!(cell.state, DisplayCellState::Hidden);
        }
    }
    assert_eq!(d.game_state, GameState::Ongoing);
}

#[test]
fn revealing_a_mine_loses_and_reveals_nothing_else() {
    let mines = vec![(0usize, 0usize)];
    let mut g = MinesweeperGame::with_mines(3, 3, &mines, Difficulty::Easy);
    g.reveal_cell(0, 0);
    assert_eq!(g.game_state, GameState::Lost);
    let d = g.get_display_board();
    assert_eq!(d.cells[0][0].state, DisplayCellState::Bomb);
    for r in 0..3 {
        for c in 0..3 {
            if (r, c) != (0, 0) {
                assert_eq!(d.cells[r][c].state, DisplayCellState::Hidden);
            }
        }
    }
    assert!(d.time_elapsed.is_some());
}

#[test]
fn all_safe_corner_cascade_reveals_everything_and_wins() {
    let mines: Vec<(usize, usize)> = vec![];
    let mut g = MinesweeperGame::with_mines(3, 3, &mines, Difficulty::Easy);
    assert_eq!(g.number_of_bombs, 0);
    g.reveal_cell(0, 0);
    let d = g.get_display_board();
    for row in &d.cells {
        for cell in row {
            assert_eq!(cell.state, DisplayCellState::Revealed(0));
        }
    }
    g.validate_board();
    assert_eq!(g.game_state, GameState::Won);
    assert!(g.get_display_board().time_elapsed.is_some());
}

#[test]
fn flood_fill_stops_at_the_numbered_rim() {
    // One mine in the far corner of a 3 x 4 board: the three cells next to
    // it carry count 1 and bound the zero region, the mine stays hidden.
    let mines = vec![(0usize, 3usize)];
    let mut g = MinesweeperGame::with_mines(3, 4, &mines, Difficulty::Easy);
    g.reveal_cell(0, 0);
    assert_eq!(g.game_state, GameState::Ongoing);
    let d = g.get_display_board();
    assert_eq!(d.cells[0][3].state, DisplayCellState::Hidden);
    assert_eq!(d.cells[0][2].state, DisplayCellState::Revealed(1));
    assert_eq!(d.cells[1][2].state, DisplayCellState::Revealed(1));
    assert_eq!(d.cells[1][3].state, DisplayCellState::Revealed(1));
    for r in 0..3 {
        for c in 0..4 {
            if !((r == 0 && c >= 2) || (r == 1 && c >= 2)) {
                assert_eq!(d.cells[r][c].state, DisplayCellState::Revealed(0));
            }
        }
    }
    g.validate_board();
    assert_eq!(g.game_state, GameState::Won);
}

#[test]
fn a_flagged_cell_cannot_be_revealed() {
    let mines = vec![(1usize, 1usize)];
    let mut g = MinesweeperGame::with_mines(2, 2, &mines, Difficulty::Easy);
    g.flag_cell(0, 0);
    g.reveal_cell(0, 0);
    let d = g.get_display_board();
    assert_eq!(d.cells[0][0].state, DisplayCellState::Flagged);
    assert_eq!(d.game_state, GameState::Ongoing);
}

#[test]
fn finished_games_ignore_further_moves() {
    let mines = vec![(0usize, 0usize)];
    let mut g = MinesweeperGame::with_mines(2, 2, &mines, Difficulty::Easy);
    g.reveal_cell(0, 0);
    assert_eq!(g.game_state, GameState::Lost);
    g.reveal_cell(0, 1);
    g.flag_cell(1, 0);
    g.validate_board();
    let d = g.get_display_board();
    assert_eq!(d.cells[0][1].state, DisplayCellState::Hidden);
    assert_eq!(d.cells[1][0].state, DisplayCellState::Hidden);
    assert_eq!(d.game_state, GameState::Lost);
}

#[test]
fn validate_board_wins_once_every_safe_cell_is_revealed() {
    let mines = vec![(0usize, 0usize), (2usize, 2usize)];
    let mut g = MinesweeperGame::with_mines(3, 3, &mines, Difficulty::Medium);
    for r in 0..3 {
        for c in 0..3 {
            if (r, c) != (0, 0) && (r, c) != (2, 2) {
                g.reveal_cell(r, c);
            }
        }
    }
    assert_eq!(g.game_state, GameState::Ongoing);
    g.validate_board();
    assert_eq!(g.game_state, GameState::Won);
}

#[test]
fn validate_board_does_nothing_while_safe_cells_remain() {
    let mines = vec![(0usize, 0usize)];
    let mut g = MinesweeperGame::with_mines(2, 2, &mines, Difficulty::Easy);
    g.reveal_cell(0, 1);
    g.validate_board();
    assert_eq!(g.game_state, GameState::Ongoing);
}

#[test]
fn adjacency_counts_are_exact() {
    // A centre mine gives every surrounding cell exactly one neighbour.
    let mines = vec![(1usize, 1usize)];
    let mut g = MinesweeperGame::with_mines(3, 3, &mines, Difficulty::Easy);
    for r in 0..3 {
        for c in 0..3 {
            if (r, c) != (1, 1) {
                g.reveal_cell(r, c);
            }
        }
    }
    let d = g.get_display_board();
    for r in 0..3 {
        for c in 0..3 {
            if (r, c) != (1, 1) {
                assert_eq!(d.cells[r][c].state, DisplayCellState::Revealed(1));
            }
        }
    }
}

#[test]
fn duplicate_and_out_of_bounds_mine_entries_are_ignored() {
    let mines = vec![(0usize, 0usize), (0usize, 0usize), (5usize, 7usize)];
    let g = MinesweeperGame::with_mines(2, 2, &mines, Difficulty::Easy);
    assert_eq!(g.number_of_bombs, 1);
}

#[test]
fn revealing_every_cell_of_a_random_board_ends_in_a_loss() {
    for difficulty in [Difficulty::Easy, Difficulty::Medium, Difficulty::Hard] {
        let mut g = MinesweeperGame::new(difficulty);
        let d = g.get_display_board();
        let rows = d.cells.len();
        let cols = d.cells[0].len();
        for r in 0..rows {
            for c in 0..cols {
                g.reveal_cell(r, c);
            }
        }
        assert_eq!(g.game_state, GameState::Lost);
        let after = g.get_display_board();
        let bombs_shown = after
            .cells
            .iter()
            .flatten()
            .filter(|cell| cell.state == DisplayCellState::Bomb)
            .count();
        assert_eq!(bombs_shown, 1);
        assert!(after.time_elapsed.is_some());
    }
}

#[test]
fn a_won_game_stays_won() {
    let mines = vec![(0usize, 0usize)];
    let mut g = MinesweeperGame::with_mines(2, 2, &mines, Difficulty::Easy);
    g.reveal_cell(0, 1);
    g.reveal_cell(1, 0);
    g.reveal_cell(1, 1);
    g.validate_board();
    assert_eq!(g.game_state, GameState::Won);
    g.reveal_cell(0, 0);
    g.flag_cell(0, 0);
    g.validate_board();
    let d = g.get_display_board();
    assert_eq!(d.game_state, GameState::Won);
    assert_eq!(d.cells[0][0].state, DisplayCellState::Hidden);
}

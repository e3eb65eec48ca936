use theseus_maze::BoardError;
use theseus_maze::Command;
use theseus_maze::Game;
use theseus_maze::GameStatus;
use theseus_maze::Grid;
use theseus_maze::input;

#[test]
fn parse_simple_board_records_positions() {
    let g = Game::from_board("T M G").unwrap();
    assert_eq!(g.height(), 1);
    assert_eq!(g.width(), 5);
    assert!(g.is_theseus(0, 0));
    assert!(g.is_minotaur(0, 2));
    assert!(g.is_goal(0, 4));
    assert!(!g.is_wall(0, 0));
}

#[test]
fn parse_multiline_board() {
    let g = Game::from_board("T X\n M \nXXG").unwrap();
    assert_eq!(g.height(), 3);
    assert_eq!(g.width(), 3);
    assert!(g.is_theseus(0, 0));
    assert!(g.is_minotaur(1, 1));
    assert!(g.is_goal(2, 2));
    assert!(g.is_wall(0, 2));
    assert!(g.is_wall(2, 0));
    assert!(g.is_wall(2, 1));
}

#[test]
fn blank_lines_are_skipped() {
    let g = Game::from_board("\n\nT M G\n   \n").unwrap();
    assert_eq!(g.height(), 1);
    assert!(g.is_theseus(0, 0));
    assert!(g.is_minotaur(0, 2));
    assert!(g.is_goal(0, 4));
}

#[test]
fn crlf_lines_parse() {
    let g = Game::from_board("TM\r\n G\r\n").unwrap();
    assert_eq!(g.height(), 2);
    assert_eq!(g.width(), 2);
    assert!(g.is_theseus(0, 0));
    assert!(g.is_minotaur(0, 1));
    assert!(g.is_goal(1, 1));
}

#[test]
fn two_theseus_fails() {
    assert_eq!(Game::from_board("TT M G").err(), Some(BoardError::MultipleTheseus));
}

#[test]
fn two_minotaur_fails() {
    assert_eq!(Game::from_board("T MM G").err(), Some(BoardError::MultipleMinotaur));
}

#[test]
fn two_goal_fails() {
    assert_eq!(Game::from_board("T M GG").err(), Some(BoardError::MultipleGoal));
}

#[test]
fn duplicate_precedes_presence_checks() {
    // No pursuer and no goal anywhere, yet the duplicate player wins.
    assert_eq!(Game::from_board("TT").err(), Some(BoardError::MultipleTheseus));
}

#[test]
fn missing_all_reports_no_theseus() {
    assert_eq!(Game::from_board("X X").err(), Some(BoardError::NoTheseus));
}

#[test]
fn missing_minotaur_after_theseus() {
    assert_eq!(Game::from_board("T").err(), Some(BoardError::NoMinotaur));
}

#[test]
fn missing_goal_last() {
    assert_eq!(Game::from_board("TM").err(), Some(BoardError::NoGoal));
}

#[test]
fn invalid_character_is_reported() {
    assert_eq!(
        Game::from_board("T M G!").err(),
        Some(BoardError::InvalidCharacter('!'))
    );
}

#[test]
fn ragged_rows_fail() {
    assert_eq!(Game::from_board("T M\nG").err(), Some(BoardError::InvalidSize));
}

#[test]
fn empty_board_reports_no_theseus() {
    assert_eq!(Game::from_board("").err(), Some(BoardError::NoTheseus));
}

#[test]
fn wall_blocks_player() {
    let mut g = Game::from_board("TXG\nM  ").unwrap();
    g.theseus_move(Command::Right);
    assert!(g.is_theseus(0, 0));
}

#[test]
fn edge_blocks_player() {
    let mut g = Game::from_board("TXG\nM  ").unwrap();
    g.theseus_move(Command::Up);
    assert!(g.is_theseus(0, 0));
    g.theseus_move(Command::Left);
    assert!(g.is_theseus(0, 0));
}

#[test]
fn skip_never_moves_player() {
    let mut g = Game::from_board("TXG\nM  ").unwrap();
    g.theseus_move(Command::Skip);
    assert!(g.is_theseus(0, 0));
    let mut h = Game::from_board("T M G").unwrap();
    h.theseus_move(Command::Skip);
    assert!(h.is_theseus(0, 0));
}

#[test]
fn player_reaches_goal_and_wins() {
    let mut g = Game::from_board("TG M").unwrap();
    assert_eq!(g.status(), GameStatus::Continue);
    g.theseus_move(Command::Right);
    assert_eq!(g.status(), GameStatus::Win);
}

#[test]
fn win_precedes_lose_when_all_coincide() {
    // The pursuer walks over the goal tile; the player then steps onto it.
    let mut g = Game::from_board("M G T").unwrap();
    g.minotaur_move();
    g.minotaur_move();
    assert!(g.is_minotaur(0, 2));
    assert!(g.is_goal(0, 2));
    g.theseus_move(Command::Left);
    g.theseus_move(Command::Left);
    assert!(g.is_theseus(0, 2));
    assert_eq!(g.status(), GameStatus::Win);
}

#[test]
fn pursuer_prefers_horizontal_step() {
    let mut g = Game::from_board("M    T\nG     ").unwrap();
    g.minotaur_move();
    assert!(g.is_minotaur(0, 1));
}

#[test]
fn pursuer_blocked_horizontally_does_not_fall_back() {
    // colDiff != 0, the horizontal step hits a wall, rowDiff != 0:
    // the pursuer must stay put this turn.
    let mut g = Game::from_board("MX\nGT").unwrap();
    assert_eq!(g.status(), GameStatus::Continue);
    g.minotaur_move();
    assert!(g.is_minotaur(0, 0));
}

#[test]
fn pursuer_steps_vertically_when_aligned() {
    let mut g = Game::from_board("M\nT\nG").unwrap();
    g.minotaur_move();
    assert!(g.is_minotaur(1, 0));
    assert_eq!(g.status(), GameStatus::Lose);
}

#[test]
fn pursuer_freezes_once_game_ends() {
    let mut g = Game::from_board("TG M").unwrap();
    g.theseus_move(Command::Right);
    assert_eq!(g.status(), GameStatus::Win);
    g.minotaur_move();
    assert!(g.is_minotaur(0, 3));
}

#[test]
fn status_is_idempotent() {
    let mut g = Game::from_board("T M G").unwrap();
    assert_eq!(g.status(), g.status());
    g.theseus_move(Command::Right);
    let first = g.status();
    assert_eq!(g.status(), first);
    assert_eq!(g.status(), first);
}

#[test]
fn moving_onto_pursuer_is_legal_and_loses() {
    let mut g = Game::from_board("TM G").unwrap();
    g.theseus_move(Command::Right);
    assert!(g.is_theseus(0, 1));
    assert_eq!(g.status(), GameStatus::Lose);
}

#[test]
fn empty_query_sees_pieces_and_tiles() {
    let g = Game::from_board("T M G\nX    ").unwrap();
    assert!(g.is_empty(0, 1));
    assert!(!g.is_empty(0, 0)); // the player stands there
    assert!(!g.is_empty(0, 2)); // the pursuer stands there
    assert!(!g.is_empty(0, 4)); // a goal tile is not open
    assert!(!g.is_empty(1, 0)); // a wall
    assert!(!g.is_empty(7, 7)); // off the grid
}

#[test]
fn empty_grid_answers_safely() {
    let g = Grid::new();
    assert!(!g.in_bounds(0, 0));
    assert_eq!(g.get(0, 0), None);
}

#[test]
fn grid_get_is_bounds_checked() {
    let g = Game::from_board("T M G").unwrap();
    assert!(!g.is_wall(0, 99));
    assert!(!g.is_goal(9, 9));
}

#[test]
fn error_messages() {
    assert_eq!(
        BoardError::InvalidCharacter('?').message(),
        "Invalid character: ?"
    );
    assert_eq!(BoardError::InvalidSize.message(), "Invalid size");
    assert_eq!(BoardError::NoMinotaur.message(), "No minotaur");
    assert_eq!(BoardError::NoTheseus.message(), "No theseus");
    assert_eq!(BoardError::NoGoal.message(), "No goal");
    assert_eq!(BoardError::MultipleMinotaur.message(), "Multiple minotaur");
    assert_eq!(BoardError::MultipleTheseus.message(), "Multiple theseus");
    assert_eq!(BoardError::MultipleGoal.message(), "Multiple goal");
}

#[test]
fn input_reads_single_letters() {
    assert_eq!(input("w"), Some(Command::Up));
    assert_eq!(input("a"), Some(Command::Left));
    assert_eq!(input("s"), Some(Command::Down));
    assert_eq!(input("d"), Some(Command::Right));
}

#[test]
fn input_reads_words_ignoring_case_and_space() {
    assert_eq!(input(" UP "), Some(Command::Up));
    assert_eq!(input("Left"), Some(Command::Left));
    assert_eq!(input("down\n"), Some(Command::Down));
    assert_eq!(input("RIGHT"), Some(Command::Right));
    assert_eq!(input("  Skip"), Some(Command::Skip));
}

#[test]
fn input_rejects_anything_else() {
    assert_eq!(input(""), None);
    assert_eq!(input("   "), None);
    assert_eq!(input("north"), None);
    assert_eq!(input("ws"), None);
    assert_eq!(input("u"), None);
}

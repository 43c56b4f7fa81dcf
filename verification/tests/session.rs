use tic_tac_toe::{
    command_for, first_player, CellState, Command, Direction, GameMatrix, Key, Reply, Session,
    WinState,
};

fn count(board: &GameMatrix<3>, mark: CellState) -> usize {
    let mut found = 0;
    for r in 0..3 {
        for c in 0..3 {
            if board.read_cell(r, c) == Some(mark) {
                found += 1;
            }
        }
    }
    found
}

#[test]
fn arrow_keys_move() {
    assert_eq!(command_for(Key::Up), Some(Command::Move(Direction::Up)));
    assert_eq!(command_for(Key::Down), Some(Command::Move(Direction::Down)));
    assert_eq!(command_for(Key::Left), Some(Command::Move(Direction::Left)));
    assert_eq!(command_for(Key::Right), Some(Command::Move(Direction::Right)));
}

#[test]
fn letter_keys_move() {
    assert_eq!(command_for(Key::Char('k')), Some(Command::Move(Direction::Up)));
    assert_eq!(command_for(Key::Char('j')), Some(Command::Move(Direction::Down)));
    assert_eq!(command_for(Key::Char('h')), Some(Command::Move(Direction::Left)));
    assert_eq!(command_for(Key::Char('l')), Some(Command::Move(Direction::Right)));
}

#[test]
fn confirm_and_cancel_keys() {
    assert_eq!(command_for(Key::Char(' ')), Some(Command::Confirm));
    assert_eq!(command_for(Key::Char('\r')), Some(Command::Confirm));
    assert_eq!(command_for(Key::Char('\n')), Some(Command::Confirm));
    assert_eq!(command_for(Key::Insert), Some(Command::Confirm));
    assert_eq!(command_for(Key::Esc), Some(Command::Cancel));
}

#[test]
fn other_keys_mean_nothing() {
    assert_eq!(command_for(Key::Other), None);
    assert_eq!(command_for(Key::Char('x')), None);
    assert_eq!(command_for(Key::Char('K')), None);
    assert_eq!(command_for(Key::Char('\t')), None);
}

#[test]
fn parity_of_the_draw_picks_the_first_player() {
    assert_eq!(first_player(0), CellState::Cross);
    assert_eq!(first_player(1), CellState::Circle);
    assert_eq!(first_player(2), CellState::Cross);
    assert_eq!(first_player(254), CellState::Cross);
    assert_eq!(first_player(255), CellState::Circle);
}

#[test]
fn start_gives_an_empty_unfinished_game() {
    let session = Session::<3>::start(0);
    assert_eq!(session.turn, CellState::Cross);
    assert_eq!(session.cursor, (0, 0));
    assert_eq!(session.state, WinState::Unfinished);
    assert_eq!(count(&session.board, CellState::Empty), 9);
    assert_eq!(Session::<3>::start(7).turn, CellState::Circle);
}

#[test]
fn start_random_picks_a_player() {
    for _ in 0..32 {
        let session = Session::<3>::start_random();
        assert!(session.turn == CellState::Cross || session.turn == CellState::Circle);
        assert_eq!(session.state, WinState::Unfinished);
        assert_eq!(count(&session.board, CellState::Empty), 9);
    }
}

#[test]
fn open_selection_puts_the_cursor_right_of_the_corner() {
    let mut session = Session::<3>::start(0);
    assert!(session.open_selection());
    assert_eq!(session.cursor, (0, 1));
    assert_eq!(session.board.read_cell(0, 1), Some(CellState::Hover));
    assert_eq!(count(&session.board, CellState::Hover), 1);
    assert_eq!(count(&session.board, CellState::Empty), 8);
    assert_eq!(session.turn, CellState::Cross);
    assert_eq!(session.state, WinState::Unfinished);
}

#[test]
fn open_selection_acts_once() {
    let mut session = Session::<3>::start(0);
    assert!(session.open_selection());
    assert!(!session.open_selection());
    assert_eq!(session.cursor, (0, 1));
    assert_eq!(count(&session.board, CellState::Hover), 1);
}

#[test]
fn open_selection_waits_for_the_turn_of_cross() {
    let mut session = Session::<3>::start(1);
    assert!(!session.open_selection());
    assert_eq!(count(&session.board, CellState::Empty), 9);
}

#[test]
fn open_selection_skips_occupied_cells() {
    let mut session = Session::<3>::start(0);
    assert_eq!(session.board.write_to_cell(0, 1, CellState::Circle), Some(()));
    assert_eq!(session.board.write_to_cell(0, 2, CellState::Cross), Some(()));
    assert!(session.open_selection());
    assert_eq!(session.cursor, (1, 0));
}

#[test]
fn keys_are_ignored_before_the_cursor_is_there() {
    let mut session = Session::<3>::start(0);
    assert_eq!(session.press(Key::Right), Reply::Ignored);
    assert_eq!(session.press(Key::Char(' ')), Reply::Ignored);
    assert_eq!(session.press(Key::Esc), Reply::Ignored);
    assert_eq!(count(&session.board, CellState::Empty), 9);
    assert_eq!(session.turn, CellState::Cross);
}

#[test]
fn a_move_takes_the_cursor_along() {
    let mut session = Session::<3>::start(0);
    assert!(session.open_selection());
    assert_eq!(session.press(Key::Right), Reply::Moved);
    assert_eq!(session.cursor, (0, 2));
    assert_eq!(session.board.read_cell(0, 1), Some(CellState::Empty));
    assert_eq!(session.board.read_cell(0, 2), Some(CellState::Hover));
    assert_eq!(session.press(Key::Char('j')), Reply::Moved);
    assert_eq!(session.cursor, (1, 2));
    assert_eq!(session.press(Key::Left), Reply::Moved);
    assert_eq!(session.cursor, (1, 1));
    assert_eq!(session.press(Key::Char('k')), Reply::Moved);
    assert_eq!(session.cursor, (0, 1));
    assert_eq!(count(&session.board, CellState::Hover), 1);
    assert_eq!(count(&session.board, CellState::Empty), 8);
}

#[test]
fn a_move_skips_the_marks() {
    let mut session = Session::<3>::start(0);
    assert_eq!(session.board.write_to_cell(0, 2, CellState::Circle), Some(()));
    assert!(session.open_selection());
    assert_eq!(session.press(Key::Right), Reply::Moved);
    assert_eq!(session.cursor, (1, 0));
    assert_eq!(session.board.read_cell(0, 2), Some(CellState::Circle));
}

#[test]
fn unknown_key_changes_nothing() {
    let mut session = Session::<3>::start(0);
    assert!(session.open_selection());
    let before = session.board.render();
    assert_eq!(session.press(Key::Other), Reply::Ignored);
    assert_eq!(session.press(Key::Char('q')), Reply::Ignored);
    assert_eq!(session.board.render(), before);
    assert_eq!(session.cursor, (0, 1));
}

#[test]
fn cancel_quits_and_changes_nothing() {
    let mut session = Session::<3>::start(0);
    assert!(session.open_selection());
    let before = session.board.render();
    assert_eq!(session.press(Key::Esc), Reply::Quit);
    assert_eq!(session.board.render(), before);
    assert_eq!(session.turn, CellState::Cross);
    assert_eq!(session.state, WinState::Unfinished);
}

#[test]
fn confirm_places_the_cross() {
    let mut session = Session::<3>::start(0);
    assert!(session.open_selection());
    assert_eq!(session.press(Key::Insert), Reply::Placed);
    assert_eq!(session.board.read_cell(0, 1), Some(CellState::Cross));
    assert_eq!(count(&session.board, CellState::Hover), 0);
    assert_eq!(session.turn, CellState::Circle);
    assert_eq!(session.state, WinState::Unfinished);
    assert_eq!(session.press(Key::Insert), Reply::Ignored);
}

#[test]
fn confirm_on_the_last_square_of_a_line_ends_the_game() {
    let mut session = Session::<3>::start(0);
    assert_eq!(session.board.write_to_cell(0, 0, CellState::Cross), Some(()));
    assert_eq!(session.board.write_to_cell(0, 2, CellState::Cross), Some(()));
    assert!(session.open_selection());
    assert_eq!(session.cursor, (0, 1));
    assert_eq!(session.press(Key::Char('\n')), Reply::Placed);
    assert_eq!(session.state, WinState::Loss);
    assert!(!session.open_selection());
    assert!(!session.sample(4, 4));
}

#[test]
fn sample_picks_the_square_by_remainders() {
    let mut session = Session::<3>::start(1);
    assert!(session.sample(4, 5));
    assert_eq!(session.board.read_cell(1, 2), Some(CellState::Circle));
    assert_eq!(count(&session.board, CellState::Circle), 1);
    assert_eq!(count(&session.board, CellState::Empty), 8);
    assert_eq!(session.turn, CellState::Cross);
    assert_eq!(session.state, WinState::Unfinished);
}

#[test]
fn sample_takes_large_draws() {
    let mut session = Session::<3>::start(1);
    // u64::MAX is 3 * 6148914691236517205, and u64::MAX - 1 leaves 2.
    assert!(session.sample(u64::MAX, u64::MAX - 1));
    assert_eq!(session.board.read_cell(0, 2), Some(CellState::Circle));
}

#[test]
fn sample_leaves_an_occupied_square_alone() {
    let mut session = Session::<3>::start(1);
    assert_eq!(session.board.write_to_cell(1, 2, CellState::Cross), Some(()));
    let before = session.board.render();
    assert!(!session.sample(4, 5));
    assert_eq!(session.board.render(), before);
    assert_eq!(session.turn, CellState::Circle);
}

#[test]
fn sample_waits_for_the_turn_of_circle() {
    let mut session = Session::<3>::start(0);
    assert!(!session.sample(0, 0));
    assert_eq!(count(&session.board, CellState::Empty), 9);
}

#[test]
fn sample_that_completes_a_line_wins() {
    let mut session = Session::<3>::start(1);
    assert_eq!(session.board.write_to_cell(0, 0, CellState::Circle), Some(()));
    assert_eq!(session.board.write_to_cell(1, 1, CellState::Circle), Some(()));
    assert!(session.sample(2, 2));
    assert_eq!(session.state, WinState::Win);
    assert_eq!(session.turn, CellState::Cross);
}

#[test]
fn sample_on_a_board_without_cells() {
    let mut session = Session::<0>::start(1);
    assert_eq!(session.state, WinState::Tie);
    assert!(!session.sample(0, 0));
}

#[test]
fn play_random_places_one_circle() {
    for _ in 0..20 {
        let mut session = Session::<3>::start(1);
        assert_eq!(session.board.write_to_cell(1, 1, CellState::Cross), Some(()));
        assert!(session.play_random(100_000));
        assert_eq!(count(&session.board, CellState::Circle), 1);
        assert_eq!(count(&session.board, CellState::Cross), 1);
        assert_eq!(count(&session.board, CellState::Empty), 7);
        assert_eq!(session.board.read_cell(1, 1), Some(CellState::Cross));
        assert_eq!(session.turn, CellState::Cross);
        assert_eq!(session.state, WinState::Unfinished);
    }
}

#[test]
fn play_random_finds_the_last_free_square() {
    let mut session = Session::<3>::start(1);
    let marks = [
        [CellState::Cross, CellState::Circle, CellState::Cross],
        [CellState::Circle, CellState::Cross, CellState::Circle],
        [CellState::Circle, CellState::Cross, CellState::Empty],
    ];
    for r in 0..3 {
        for c in 0..3 {
            assert_eq!(session.board.write_to_cell(r, c, marks[r][c]), Some(()));
        }
    }
    assert!(session.play_random(100_000));
    assert_eq!(session.board.read_cell(2, 2), Some(CellState::Circle));
    assert_eq!(session.state, WinState::Tie);
}

#[test]
fn play_random_on_an_open_board_needs_one_attempt() {
    for _ in 0..50 {
        let mut session = Session::<3>::start(1);
        assert!(session.play_random(1));
        assert_eq!(count(&session.board, CellState::Circle), 1);
        assert_eq!(count(&session.board, CellState::Empty), 8);
        assert_eq!(session.turn, CellState::Cross);
        assert_eq!(session.state, WinState::Unfinished);
    }
    let mut session = Session::<1>::start(1);
    assert!(session.play_random(1));
    assert_eq!(session.board.read_cell(0, 0), Some(CellState::Circle));
    assert_eq!(session.state, WinState::Win);
}

#[test]
fn play_random_on_a_full_board_places_nothing() {
    let mut session = Session::<2>::start(1);
    let marks = [[CellState::Cross, CellState::Circle], [CellState::Circle, CellState::Cross]];
    for r in 0..2 {
        for c in 0..2 {
            assert_eq!(session.board.write_to_cell(r, c, marks[r][c]), Some(()));
        }
    }
    let before = session.board.render();
    assert!(!session.play_random(1000));
    assert_eq!(session.board.render(), before);
    assert_eq!(session.turn, CellState::Circle);
}

#[test]
fn play_random_without_attempts_does_nothing() {
    let mut session = Session::<3>::start(1);
    assert!(!session.play_random(0));
    assert_eq!(count(&session.board, CellState::Empty), 9);
    assert_eq!(session.turn, CellState::Circle);
}

#[test]
fn play_random_waits_for_the_turn_of_circle() {
    let mut session = Session::<3>::start(0);
    assert!(!session.play_random(1000));
    assert_eq!(count(&session.board, CellState::Empty), 9);
}

#[test]
fn a_whole_game() {
    let mut session = Session::<3>::start(0);
    // Cross takes the top row, square by square; Circle answers below.
    assert!(session.open_selection());
    assert_eq!(session.press(Key::Left), Reply::Moved);
    assert_eq!(session.cursor, (0, 0));
    assert_eq!(session.press(Key::Char(' ')), Reply::Placed);
    assert!(session.sample(1, 0));
    assert!(session.open_selection());
    assert_eq!(session.cursor, (0, 1));
    assert_eq!(session.press(Key::Char(' ')), Reply::Placed);
    assert!(session.sample(1, 1));
    assert!(session.open_selection());
    assert_eq!(session.cursor, (0, 2));
    assert_eq!(session.state, WinState::Unfinished);
    assert_eq!(session.press(Key::Char(' ')), Reply::Placed);
    assert_eq!(session.state, WinState::Loss);
    assert_eq!(
        session.board.render(),
        "+-+-+-+\n|X|X|X|\n+-+-+-+\n|O|O| |\n+-+-+-+\n| | | |\n+-+-+-+\n"
    );
}

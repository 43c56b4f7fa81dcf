//! One game between the player who picks a square with the cursor
//! (`Cross`) and the player who picks one at random (`Circle`).
//!
//! The session decides; its driver reads the keys, shows the board and
//! calls back with what happened.

use crate::board::{grid_with, GameMatrix};
use crate::cell::CellState;
use crate::chance::{random_u64, random_u8};
use crate::evaluator::WinState;
use crate::navigator::Direction;
use vstd::arithmetic::div_mod::lemma_mod_pos_bound;
use vstd::prelude::*;

verus! {

/// A key press, as far as the game tells keys apart.
#[derive(Debug, PartialEq, Eq, Clone, Copy)]
pub enum Key {
    Esc,
    Insert,
    Up,
    Down,
    Left,
    Right,
    Char(char),
    Other,
}

/// What a key asks for.
#[derive(Debug, PartialEq, Eq, Structural, Clone, Copy)]
pub enum Command {
    Move(Direction),
    Confirm,
    Cancel,
}

/// What a key press led to.
#[derive(Debug, PartialEq, Eq, Structural, Clone, Copy)]
pub enum Reply {
    /// Nothing changed.
    Ignored,
    /// The cursor went to the next free square.
    Moved,
    /// The mark was put where the cursor stood, and the turn passed on.
    Placed,
    /// The player gave the game up.
    Quit,
}

/// The key bindings: the arrow keys and `k`, `j`, `h`, `l` move the cursor
/// up, down, left and right; space, insert, and the two line ends confirm;
/// escape cancels. No other key means anything.
pub open spec fn command_of(key: Key) -> Option<Command> {
    match key {
        Key::Esc => Some(Command::Cancel),
        Key::Insert => Some(Command::Confirm),
        Key::Up => Some(Command::Move(Direction::Up)),
        Key::Down => Some(Command::Move(Direction::Down)),
        Key::Left => Some(Command::Move(Direction::Left)),
        Key::Right => Some(Command::Move(Direction::Right)),
        Key::Char(c) => if c == ' ' || c == '\r' || c == '\n' {
            Some(Command::Confirm)
        } else if c == 'k' {
            Some(Command::Move(Direction::Up))
        } else if c == 'j' {
            Some(Command::Move(Direction::Down))
        } else if c == 'h' {
            Some(Command::Move(Direction::Left))
        } else if c == 'l' {
            Some(Command::Move(Direction::Right))
        } else {
            None
        },
        Key::Other => None,
    }
}

/// What `key` asks for, if anything.
pub fn command_for(key: Key) -> (command: Option<Command>)
    ensures
        command == command_of(key),
{
    match key {
        Key::Esc => Some(Command::Cancel),
        Key::Insert => Some(Command::Confirm),
        Key::Up => Some(Command::Move(Direction::Up)),
        Key::Down => Some(Command::Move(Direction::Down)),
        Key::Left => Some(Command::Move(Direction::Left)),
        Key::Right => Some(Command::Move(Direction::Right)),
        Key::Char(c) => {
            if c == ' ' || c == '\r' || c == '\n' {
                Some(Command::Confirm)
            } else if c == 'k' {
                Some(Command::Move(Direction::Up))
            } else if c == 'j' {
                Some(Command::Move(Direction::Down))
            } else if c == 'h' {
                Some(Command::Move(Direction::Left))
            } else if c == 'l' {
                Some(Command::Move(Direction::Right))
            } else {
                None
            }
        },
        Key::Other => None,
    }
}

/// Who moves first: `Cross` on an even draw, `Circle` on an odd one.
pub open spec fn first_mover(draw: u8) -> CellState {
    if draw % 2 == 0 {
        CellState::Cross
    } else {
        CellState::Circle
    }
}

/// The mark of the player who moves first on the draw `draw`.
pub fn first_player(draw: u8) -> (mark: CellState)
    ensures
        mark == first_mover(draw),
{
    CellState::from_code(draw % 2 + 1)
}

/// The state of one game.
#[derive(Debug)]
pub struct Session<const N: usize> {
    pub board: GameMatrix<N>,
    /// The mark of the player who is to move.
    pub turn: CellState,
    /// Where the cursor was put last.
    pub cursor: (usize, usize),
    /// How the game stood when the board was last evaluated.
    pub state: WinState,
}

impl<const N: usize> Session<N> {
    /// Whether the cursor is on the board: the game goes on, `Cross` is to
    /// move, and the square under the cursor shows it.
    pub open spec fn selecting(self) -> bool {
        &&& self.state == WinState::Unfinished
        &&& self.turn == CellState::Cross
        &&& GameMatrix::<N>::in_grid(self.cursor.0 as int, self.cursor.1 as int)
        &&& self.board@[self.cursor.0 as int][self.cursor.1 as int] == CellState::Hover
    }

    /// Whether `Cross` is to move and the cursor has yet to be put on the
    /// board.
    pub open spec fn awaiting_cursor(self) -> bool {
        &&& self.state == WinState::Unfinished
        &&& self.turn == CellState::Cross
        &&& self.board.any_free()
        &&& !self.selecting()
    }

    /// Whether `Circle` is to move.
    pub open spec fn sampling(self) -> bool {
        &&& self.state == WinState::Unfinished
        &&& self.turn == CellState::Circle
        &&& N > 0
    }

    /// Whether the session knows how its board stands.
    pub open spec fn consistent(self) -> bool {
        self.state == self.board.outcome()
    }

    /// Whether `next` is this session after the player to move has put a
    /// mark on (`r`, `c`): the turn has passed on and the board has been
    /// evaluated.
    pub open spec fn marked(self, next: Self, r: int, c: int) -> bool {
        &&& next.board@ == grid_with(self.board@, r, c, self.turn)
        &&& next.turn == self.turn.rival()
        &&& next.cursor == self.cursor
        &&& next.state == next.board.outcome()
    }

    /// Whether `next` is this session after the cursor has been put on the
    /// board: on the first free square after the top left corner, row by
    /// row.
    pub open spec fn opened(self, next: Self) -> bool {
        &&& (next.cursor.0 as int, next.cursor.1 as int) == self.board.next_free(
            0,
            0,
            Direction::Right,
        )
        &&& next.board@ == grid_with(
            self.board@,
            next.cursor.0 as int,
            next.cursor.1 as int,
            CellState::Hover,
        )
        &&& next.turn == self.turn
        &&& next.state == self.state
    }

    /// Whether `next` is this session after the cursor has gone to the next
    /// free square in `direction`, and has left the square on which it
    /// stood empty.
    pub open spec fn moved(self, next: Self, direction: Direction) -> bool {
        &&& (next.cursor.0 as int, next.cursor.1 as int) == self.board.next_free(
            self.cursor.0 as int,
            self.cursor.1 as int,
            direction,
        )
        &&& next.board@ == grid_with(
            grid_with(
                self.board@,
                self.cursor.0 as int,
                self.cursor.1 as int,
                CellState::Empty,
            ),
            next.cursor.0 as int,
            next.cursor.1 as int,
            CellState::Hover,
        )
        &&& next.turn == self.turn
        &&& next.state == self.state
    }

    /// Whether the key `key` makes `next` of this session, with the reply
    /// `reply`.
    ///
    /// While the cursor is on the board, a move takes it along, confirming
    /// puts the mark where it stands, and cancelling gives the game up. A
    /// key that means nothing, and any key while the cursor is not on the
    /// board, is ignored.
    pub open spec fn pressed(self, key: Key, next: Self, reply: Reply) -> bool {
        if !self.selecting() {
            reply == Reply::Ignored && next == self
        } else {
            match command_of(key) {
                None => reply == Reply::Ignored && next == self,
                Some(Command::Cancel) => reply == Reply::Quit && next == self,
                Some(Command::Confirm) => reply == Reply::Placed && self.marked(
                    next,
                    self.cursor.0 as int,
                    self.cursor.1 as int,
                ),
                Some(Command::Move(direction)) => reply == Reply::Moved && self.moved(
                    next,
                    direction,
                ),
            }
        }
    }

    fn is_selecting(&self) -> (b: bool)
        ensures
            b == self.selecting(),
    {
        self.state == WinState::Unfinished && self.turn == CellState::Cross && match self.board.read_cell(
            self.cursor.0,
            self.cursor.1,
        ) {
            Some(cell) => cell == CellState::Hover,
            None => false,
        }
    }

    /// A new game on an empty board; `draw` decides who moves first.
    pub fn start(draw: u8) -> (session: Self)
        ensures
            session.board@ == Seq::new(
                N as nat,
                |r: int| Seq::new(N as nat, |c: int| CellState::Empty),
            ),
            session.turn == first_mover(draw),
            session.cursor == (0usize, 0usize),
            session.consistent(),
            session.state == if N > 0 {
                WinState::Unfinished
            } else {
                WinState::Tie
            },
    {
        let board = GameMatrix::default();
        let state = board.check_win();
        proof {
            board.lemma_empty_board();
        }
        Session { board, turn: first_player(draw), cursor: (0, 0), state }
    }

    /// A new game on an empty board, with the first mover drawn at random.
    pub fn start_random() -> (session: Self)
        ensures
            session.board@ == Seq::new(
                N as nat,
                |r: int| Seq::new(N as nat, |c: int| CellState::Empty),
            ),
            session.turn == CellState::Cross || session.turn == CellState::Circle,
            session.cursor == (0usize, 0usize),
            session.consistent(),
            session.state == if N > 0 {
                WinState::Unfinished
            } else {
                WinState::Tie
            },
    {
        Self::start(random_u8())
    }

    /// Puts the cursor on the board when `Cross` is to move and it is not
    /// there yet.
    pub fn open_selection(&mut self) -> (opened: bool)
        ensures
            opened == old(self).awaiting_cursor(),
            !opened ==> *final(self) == *old(self),
            opened ==> old(self).opened(*final(self)) && final(self).selecting(),
            old(self).consistent() ==> final(self).consistent(),
    {
        if self.state != WinState::Unfinished || self.turn != CellState::Cross
            || self.is_selecting() || !self.board.has_free_cell() {
            return false;
        }
        let cell = self.board.first_free_cell(0, 0, Direction::Right);
        let _ = self.board.write_to_cell(cell.0, cell.1, CellState::Hover);
        self.cursor = cell;
        proof {
            assert(old(self).board.same_marks(self.board)) by {
                assert forall|r: int, c: int| GameMatrix::<N>::in_grid(r, c) implies #[trigger] old(
                    self,
                ).board.agrees_at(self.board, r, c) by {}
            }
            old(self).board.lemma_outcome_of_marks(self.board);
        }
        true
    }

    /// Takes a key press.
    pub fn press(&mut self, key: Key) -> (reply: Reply)
        ensures
            old(self).pressed(key, *final(self), reply),
            reply == Reply::Moved ==> final(self).selecting(),
            old(self).consistent() ==> final(self).consistent(),
    {
        if !self.is_selecting() {
            return Reply::Ignored;
        }
        match command_for(key) {
            None => Reply::Ignored,
            Some(Command::Cancel) => Reply::Quit,
            Some(Command::Confirm) => {
                let _ = self.board.write_to_cell(self.cursor.0, self.cursor.1, self.turn);
                self.turn = CellState::Circle;
                self.state = self.board.check_win();
                Reply::Placed
            },
            Some(Command::Move(direction)) => {
                assert(self.board.is_free(self.cursor.0 as int, self.cursor.1 as int));
                let left = self.cursor;
                let cell = self.board.first_free_cell(left.0, left.1, direction);
                let _ = self.board.write_to_cell(left.0, left.1, CellState::Empty);
                let _ = self.board.write_to_cell(cell.0, cell.1, CellState::Hover);
                self.cursor = cell;
                proof {
                    assert(old(self).board.same_marks(self.board)) by {
                        assert forall|r: int, c: int|
                            GameMatrix::<N>::in_grid(r, c) implies #[trigger] old(
                            self,
                        ).board.agrees_at(self.board, r, c) by {}
                    }
                    old(self).board.lemma_outcome_of_marks(self.board);
                }
                Reply::Moved
            },
        }
    }

    /// Tries a square for `Circle`, picked by two draws: row `a` modulo `N`,
    /// column `b` modulo `N`. If that square is free, `Circle` takes it and
    /// the turn passes on; if not, or if `Circle` is not to move, nothing
    /// changes.
    pub fn sample(&mut self, a: u64, b: u64) -> (placed: bool)
        ensures
            placed == (old(self).sampling() && old(self).board.is_free(
                a as int % N as int,
                b as int % N as int,
            )),
            placed ==> old(self).marked(*final(self), a as int % N as int, b as int % N as int),
            !placed ==> *final(self) == *old(self),
            old(self).consistent() ==> final(self).consistent(),
    {
        if self.state != WinState::Unfinished || self.turn != CellState::Circle || N == 0 {
            return false;
        }
        let r: usize = (a % (N as u64)) as usize;
        let c: usize = (b % (N as u64)) as usize;
        if !self.board.cell_free(r, c) {
            return false;
        }
        let _ = self.board.write_to_cell(r, c, self.turn);
        self.turn = CellState::Cross;
        self.state = self.board.check_win();
        true
    }

    /// Lets `Circle` move at random: draws squares until one is free, at
    /// most `attempts` times.
    ///
    /// Where `Circle` is not to move, no attempt is allowed or no square is
    /// free, nothing is placed. Where every square is free, the first
    /// draw finds one. On any other board it is left to chance whether a
    /// free square is found within the attempts, and always which one.
    pub fn play_random(&mut self, attempts: usize) -> (placed: bool)
        ensures
            placed ==> old(self).sampling() && exists|r: int, c: int|
                old(self).board.is_free(r, c) && #[trigger] old(self).marked(*final(self), r, c),
            !placed ==> *final(self) == *old(self),
            !old(self).sampling() || attempts == 0 || !old(self).board.any_free() ==> !placed,
            old(self).sampling() && attempts > 0 && old(self).board.all_free() ==> placed,
            old(self).consistent() ==> final(self).consistent(),
    {
        let mut left: usize = attempts;
        while left > 0
            invariant
                left <= attempts,
                *self == *old(self),
                left < attempts ==> !(old(self).sampling() && old(self).board.all_free()),
            decreases left,
        {
            let a = random_u64();
            let b = random_u64();
            if self.sample(a, b) {
                assert(old(self).marked(*self, a as int % N as int, b as int % N as int));
                return true;
            }
            proof {
                if old(self).sampling() {
                    lemma_mod_pos_bound(a as int, N as int);
                    lemma_mod_pos_bound(b as int, N as int);
                    assert(GameMatrix::<N>::in_grid(a as int % N as int, b as int % N as int));
                    assert(!old(self).board.is_free(a as int % N as int, b as int % N as int));
                }
            }
            left -= 1;
        }
        false
    }
}

} // verus!

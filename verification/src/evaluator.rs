use crate::board::GameMatrix;
use crate::cell::CellState;
use vstd::prelude::*;

verus! {

/// How a game stands. `Loss` means that `Cross` owns a whole line, `Win` that
/// `Circle` does.
#[derive(Debug, PartialEq, Eq, Structural, Clone, Copy)]
pub enum WinState {
    Unfinished,
    Tie,
    Win,
    Loss,
}

impl Default for WinState {
    fn default() -> (state: Self)
        ensures
            state == WinState::Unfinished,
    {
        WinState::Unfinished
    }
}

/// A line of the grid, as the evaluation walks it.
#[derive(Clone, Copy)]
enum Line {
    Row(usize),
    Column(usize),
    Diagonal,
    AntiDiagonal,
}

impl Line {
    /// The number of this line among the lines of an `n` by `n` grid.
    spec fn number(self, n: int) -> int {
        match self {
            Line::Row(i) => i as int,
            Line::Column(i) => n + i,
            Line::Diagonal => 2 * n,
            Line::AntiDiagonal => 2 * n + 1,
        }
    }

    spec fn within(self, n: int) -> bool {
        match self {
            Line::Row(i) => i < n,
            Line::Column(i) => i < n,
            Line::Diagonal => true,
            Line::AntiDiagonal => true,
        }
    }
}

impl<const N: usize> GameMatrix<N> {
    /// Square `k` of line `line`.
    ///
    /// The lines are numbered in the order in which they are examined: the
    /// rows from the top (0 to `N - 1`), the columns from the left (`N` to
    /// `2N - 1`), the diagonal from the top left corner (`2N`), and the
    /// diagonal from the top right corner (`2N + 1`). Each is walked from
    /// its top or left end.
    pub open spec fn line_cell(self, line: int, k: int) -> CellState {
        if line < N {
            self@[line][k]
        } else if line < 2 * N {
            self@[k][line - N]
        } else if line == 2 * N {
            self@[k][k]
        } else {
            self@[k][N - 1 - k]
        }
    }

    /// Whether `line` is a line of the grid and each of its `N` squares
    /// holds `mark`. A grid without squares has no lines.
    pub open spec fn line_full(self, line: int, mark: CellState) -> bool {
        &&& N > 0
        &&& 0 <= line < 2 * N + 2
        &&& forall|k: int| 0 <= k < N ==> self.line_cell(line, k) == mark
    }

    /// Whether one player owns the whole of `line`.
    pub open spec fn decided(self, line: int) -> bool {
        self.line_full(line, CellState::Cross) || self.line_full(line, CellState::Circle)
    }

    /// Whether `line` is the first line, in the order of examination, that
    /// one player owns.
    pub open spec fn first_decided(self, line: int) -> bool {
        self.decided(line) && forall|m: int| 0 <= m < line ==> !self.decided(m)
    }

    /// How the game stands on this board.
    ///
    /// The first line that one player owns settles it: `Loss` if the line
    /// is `Cross`'s, `Win` if it is `Circle`'s. With no such line the game
    /// is `Unfinished` as long as a square is free, and a `Tie` once the
    /// board is full.
    pub open spec fn outcome(self) -> WinState {
        if exists|line: int| self.decided(line) {
            let first = choose|line: int| self.first_decided(line);
            if self.line_full(first, CellState::Cross) {
                WinState::Loss
            } else {
                WinState::Win
            }
        } else if self.any_free() {
            WinState::Unfinished
        } else {
            WinState::Tie
        }
    }

    fn line_square(&self, line: Line, k: usize) -> (cell: CellState)
        requires
            line.within(N as int),
            k < N,
        ensures
            cell == self.line_cell(line.number(N as int), k as int),
    {
        let found = match line {
            Line::Row(i) => self.read_cell(i, k),
            Line::Column(i) => self.read_cell(k, i),
            Line::Diagonal => self.read_cell(k, k),
            Line::AntiDiagonal => self.read_cell(k, N - 1 - k),
        };
        match found {
            Some(cell) => cell,
            None => CellState::Empty,
        }
    }

    /// The player who owns the whole of `line`, if one does.
    fn line_owner(&self, line: Line) -> (owner: Option<CellState>)
        requires
            line.within(N as int),
        ensures
            owner matches Some(mark) ==> (mark == CellState::Cross || mark == CellState::Circle)
                && self.line_full(line.number(N as int), mark),
            owner.is_none() ==> !self.decided(line.number(N as int)),
    {
        if N == 0 {
            return None;
        }
        let ghost number = line.number(N as int);
        let first = self.line_square(line, 0);
        if first != CellState::Cross && first != CellState::Circle {
            assert(self.line_cell(number, 0) == first);
            return None;
        }
        let mut k: usize = 1;
        while k < N
            invariant
                1 <= k <= N,
                line.within(N as int),
                number == line.number(N as int),
                first == self.line_cell(number, 0),
                forall|j: int| 0 <= j < k ==> self.line_cell(number, j) == first,
            decreases N - k,
        {
            if self.line_square(line, k) != first {
                assert(self.line_cell(number, k as int) != first);
                return None;
            }
            k += 1;
        }
        Some(first)
    }

    /// The outcome that the owner of a whole line brings about.
    fn verdict(owner: CellState) -> (state: WinState)
        ensures
            state == if owner == CellState::Cross {
                WinState::Loss
            } else {
                WinState::Win
            },
    {
        if owner == CellState::Cross {
            WinState::Loss
        } else {
            WinState::Win
        }
    }

    /// Evaluates the board: the rows, then the columns, then the two
    /// diagonals; the first line that one player owns settles the game.
    pub fn check_win(&self) -> (state: WinState)
        ensures
            state == self.outcome(),
    {
        let mut i: usize = 0;
        while i < N
            invariant
                i <= N,
                forall|m: int| 0 <= m < i ==> !self.decided(m),
            decreases N - i,
        {
            if let Some(mark) = self.line_owner(Line::Row(i)) {
                proof {
                    self.lemma_first_decided_settles(i as int, mark);
                }
                return Self::verdict(mark);
            }
            i += 1;
        }
        let mut j: usize = 0;
        while j < N
            invariant
                j <= N,
                forall|m: int| 0 <= m < N + j ==> !self.decided(m),
            decreases N - j,
        {
            if let Some(mark) = self.line_owner(Line::Column(j)) {
                proof {
                    self.lemma_first_decided_settles(N + j, mark);
                }
                return Self::verdict(mark);
            }
            j += 1;
        }
        if let Some(mark) = self.line_owner(Line::Diagonal) {
            proof {
                self.lemma_first_decided_settles(2 * N, mark);
            }
            return Self::verdict(mark);
        }
        if let Some(mark) = self.line_owner(Line::AntiDiagonal) {
            proof {
                self.lemma_first_decided_settles(2 * N + 1, mark);
            }
            return Self::verdict(mark);
        }
        assert(forall|line: int| !self.decided(line));
        if self.has_free_cell() {
            WinState::Unfinished
        } else {
            WinState::Tie
        }
    }

    /// Once the first owned line is known, so is the outcome.
    pub proof fn lemma_first_decided_settles(self, line: int, mark: CellState)
        requires
            self.first_decided(line),
            self.line_full(line, mark),
        ensures
            self.outcome() == if mark == CellState::Cross {
                WinState::Loss
            } else {
                WinState::Win
            },
    {
        let first = choose|l: int| self.first_decided(l);
        assert(self.first_decided(first));
        assert(first == line) by {
            if first < line {
                assert(!self.decided(first));
            }
            if line < first {
                assert(!self.decided(line));
            }
        }
        assert(self.line_cell(line, 0) == mark);
    }

    /// Among the lines up to one that a player owns, one is the first.
    proof fn lemma_first_decided_exists(self, line: int) -> (first: int)
        requires
            self.decided(line),
        ensures
            self.first_decided(first),
            0 <= first <= line,
        decreases line,
    {
        if exists|m: int| 0 <= m < line && self.decided(m) {
            let m = choose|m: int| 0 <= m < line && self.decided(m);
            self.lemma_first_decided_exists(m)
        } else {
            line
        }
    }

    /// A line that is all `Cross` makes the game a `Loss`, and a line that
    /// is all `Circle` makes it a `Win`, unless the other player owns a
    /// line that is examined before it.
    pub proof fn lemma_owned_line_settles(self, line: int, mark: CellState)
        requires
            mark == CellState::Cross || mark == CellState::Circle,
            self.line_full(line, mark),
            forall|m: int| 0 <= m < line ==> !self.line_full(m, mark.rival()),
        ensures
            self.outcome() == if mark == CellState::Cross {
                WinState::Loss
            } else {
                WinState::Win
            },
    {
        let first = self.lemma_first_decided_exists(line);
        assert(self.line_cell(line, 0) == mark);
        assert(self.line_full(first, mark));
        self.lemma_first_decided_settles(first, mark);
    }

    /// Where no player owns a line, a full board is a `Tie` and any other
    /// board is `Unfinished`.
    pub proof fn lemma_undecided(self)
        requires
            forall|line: int| !self.decided(line),
        ensures
            self.outcome() == if self.any_free() {
                WinState::Unfinished
            } else {
                WinState::Tie
            },
    {
    }

    /// Before the first move the game is unfinished. A grid without
    /// squares is full from the start, which makes it a tie.
    pub proof fn lemma_empty_board(self)
        requires
            self@ == Seq::new(N as nat, |r: int| Seq::new(N as nat, |c: int| CellState::Empty)),
        ensures
            self.outcome() == if N > 0 {
                WinState::Unfinished
            } else {
                WinState::Tie
            },
    {
        assert forall|line: int| !self.decided(line) by {
            if self.decided(line) {
                assert(self.line_cell(line, 0) == CellState::Empty);
            }
        }
        if N > 0 {
            assert(self.is_free(0, 0));
        }
    }

    /// Whether square (`r`, `c`) counts the same on both boards: it holds
    /// the same state, or it is free on both.
    pub open spec fn agrees_at(self, other: Self, r: int, c: int) -> bool {
        self@[r][c] == other@[r][c] || (self@[r][c].free() && other@[r][c].free())
    }

    /// Whether both boards hold the same marks. Where the cursor rests
    /// makes no difference.
    pub open spec fn same_marks(self, other: Self) -> bool {
        forall|r: int, c: int| Self::in_grid(r, c) ==> #[trigger] self.agrees_at(other, r, c)
    }

    proof fn lemma_line_of_marks(self, other: Self, line: int, mark: CellState)
        requires
            self.same_marks(other),
            mark == CellState::Cross || mark == CellState::Circle,
            self.line_full(line, mark),
        ensures
            other.line_full(line, mark),
    {
        assert forall|k: int| 0 <= k < N implies other.line_cell(line, k) == mark by {
            assert(self.line_cell(line, k) == mark);
            if line < N {
                assert(self.agrees_at(other, line, k));
            } else if line < 2 * N {
                assert(self.agrees_at(other, k, line - N));
            } else if line == 2 * N {
                assert(self.agrees_at(other, k, k));
            } else {
                assert(self.agrees_at(other, k, N - 1 - k));
            }
        }
    }

    /// The outcome depends on nothing but the marks: boards that hold the
    /// same marks stand the same.
    pub proof fn lemma_outcome_of_marks(self, other: Self)
        requires
            self.same_marks(other),
        ensures
            self.outcome() == other.outcome(),
    {
        assert(other.same_marks(self)) by {
            assert forall|r: int, c: int| Self::in_grid(r, c) implies #[trigger] other.agrees_at(
                self,
                r,
                c,
            ) by {
                assert(self.agrees_at(other, r, c));
            }
        }
        assert forall|line: int| self.decided(line) == other.decided(line) by {
            if self.line_full(line, CellState::Cross) {
                self.lemma_line_of_marks(other, line, CellState::Cross);
            }
            if self.line_full(line, CellState::Circle) {
                self.lemma_line_of_marks(other, line, CellState::Circle);
            }
            if other.line_full(line, CellState::Cross) {
                other.lemma_line_of_marks(self, line, CellState::Cross);
            }
            if other.line_full(line, CellState::Circle) {
                other.lemma_line_of_marks(self, line, CellState::Circle);
            }
        }
        assert(self.any_free() == other.any_free()) by {
            assert forall|r: int, c: int| self.is_free(r, c) == other.is_free(r, c) by {
                if Self::in_grid(r, c) {
                    assert(self.agrees_at(other, r, c));
                }
            }
        }
        if exists|line: int| self.decided(line) {
            let line = choose|line: int| self.decided(line);
            let first = self.lemma_first_decided_exists(line);
            assert(other.first_decided(first));
            let mark = if self.line_full(first, CellState::Cross) {
                CellState::Cross
            } else {
                CellState::Circle
            };
            self.lemma_line_of_marks(other, first, mark);
            self.lemma_first_decided_settles(first, mark);
            other.lemma_first_decided_settles(first, mark);
        }
    }

    /// Evaluating a board again gives the same outcome: boards that hold
    /// the same squares stand the same.
    pub proof fn lemma_outcome_of_cells(self, other: Self)
        requires
            self@ == other@,
        ensures
            self.outcome() == other.outcome(),
    {
        assert(self.same_marks(other)) by {
            assert forall|r: int, c: int| Self::in_grid(r, c) implies #[trigger] self.agrees_at(
                other,
                r,
                c,
            ) by {}
        }
        self.lemma_outcome_of_marks(other);
    }
}

} // verus!

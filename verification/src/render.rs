//! The board as text: a frame of `+` and `-`, and one character for each
//! square.

use crate::board::GameMatrix;
use crate::cell::CellState;
use vstd::prelude::*;
use vstd::string::StringExecFns;

verus! {

/// The first `upto` joints of a frame line, each with its dash.
pub open spec fn dashes(upto: int) -> Seq<char>
    decreases upto,
{
    if upto <= 0 {
        Seq::<char>::empty()
    } else {
        dashes(upto - 1) + seq!['+', '-']
    }
}

/// A frame line over `n` squares.
pub open spec fn frame_line(n: int) -> Seq<char> {
    dashes(n) + seq!['+', '\n']
}

/// The first `upto` squares of a row, each behind its bar.
pub open spec fn squares(row: Seq<CellState>, upto: int) -> Seq<char>
    decreases upto,
{
    if upto <= 0 {
        Seq::<char>::empty()
    } else {
        squares(row, upto - 1) + seq!['|', row[upto - 1].symbol()]
    }
}

/// The line that shows a row.
pub open spec fn row_line(row: Seq<CellState>) -> Seq<char> {
    squares(row, row.len() as int) + seq!['|', '\n']
}

/// The first `upto` rows of a grid, each under its frame line.
pub open spec fn rows(grid: Seq<Seq<CellState>>, upto: int) -> Seq<char>
    decreases upto,
{
    if upto <= 0 {
        Seq::<char>::empty()
    } else {
        rows(grid, upto - 1) + frame_line(grid.len() as int) + row_line(grid[upto - 1])
    }
}

/// The text of a grid: every row under a frame line, and a frame line
/// under the last row. A grid without rows has no text.
pub open spec fn picture(grid: Seq<Seq<CellState>>) -> Seq<char> {
    if grid.len() == 0 {
        Seq::<char>::empty()
    } else {
        rows(grid, grid.len() as int) + frame_line(grid.len() as int)
    }
}

/// The character of a state, as a text of its own.
fn glyph_text(cell: CellState) -> (text: &'static str)
    ensures
        text@ == seq![cell.symbol()],
{
    let text = match cell {
        CellState::Empty => " ",
        CellState::Cross => "X",
        CellState::Circle => "O",
        CellState::Hover => "@",
    };
    proof {
        reveal_strlit(" ");
        reveal_strlit("X");
        reveal_strlit("O");
        reveal_strlit("@");
        assert(text@ =~= seq![cell.symbol()]);
    }
    text
}

/// Appends a frame line over `n` squares.
fn push_frame_line(text: &mut String, n: usize)
    ensures
        final(text)@ == old(text)@ + frame_line(n as int),
{
    let ghost before = text@;
    let mut i: usize = 0;
    while i < n
        invariant
            i <= n,
            text@ == before + dashes(i as int),
        decreases n - i,
    {
        text.append("+-");
        proof {
            reveal_strlit("+-");
            assert("+-"@ =~= seq!['+', '-']);
            assert(text@ =~= before + dashes(i as int + 1));
        }
        i += 1;
    }
    text.append("+\n");
    proof {
        reveal_strlit("+\n");
        assert("+\n"@ =~= seq!['+', '\n']);
        assert(text@ =~= before + frame_line(n as int));
    }
}

impl<const N: usize> GameMatrix<N> {
    /// The board as it is shown on screen.
    pub open spec fn rendering(self) -> Seq<char> {
        picture(self@)
    }

    /// Draws the board: `+-` frames every square, and each square shows
    /// the character of its state.
    pub fn render(&self) -> (text: String)
        ensures
            text@ == self.rendering(),
    {
        let mut text = String::new();
        let mut r: usize = 0;
        while r < N
            invariant
                r <= N,
                text@ == rows(self@, r as int),
            decreases N - r,
        {
            let ghost above = text@;
            push_frame_line(&mut text, N);
            let ghost framed = text@;
            let mut c: usize = 0;
            while c < N
                invariant
                    r < N,
                    c <= N,
                    text@ == framed + squares(self@[r as int], c as int),
                decreases N - c,
            {
                let cell = match self.read_cell(r, c) {
                    Some(cell) => cell,
                    None => CellState::Empty,
                };
                text.append("|");
                text.append(glyph_text(cell));
                proof {
                    reveal_strlit("|");
                    assert("|"@ =~= seq!['|']);
                    assert(text@ =~= framed + squares(self@[r as int], c as int + 1));
                }
                c += 1;
            }
            text.append("|\n");
            proof {
                reveal_strlit("|\n");
                assert("|\n"@ =~= seq!['|', '\n']);
                assert(text@ =~= rows(self@, r as int + 1));
            }
            r += 1;
        }
        if N > 0 {
            push_frame_line(&mut text, N);
        }
        text
    }
}

} // verus!

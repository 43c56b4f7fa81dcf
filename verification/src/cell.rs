use vstd::prelude::*;
use vstd::std_specs::convert::FromSpecImpl;

verus! {

/// What a single square of the grid holds.
///
/// `Cross` and `Circle` are the marks of the two players. `Hover` shows where
/// the selection cursor rests; it is not a move.
#[derive(Debug, PartialEq, Eq, Structural, Clone, Copy)]
pub enum CellState {
    Empty,
    Cross,
    Circle,
    Hover,
}

impl Default for CellState {
    fn default() -> (cell: Self)
        ensures
            cell == CellState::Empty,
    {
        CellState::Empty
    }
}

impl CellState {
    /// A square is free while no player has committed a mark to it.
    pub open spec fn free(self) -> bool {
        self == CellState::Empty || self == CellState::Hover
    }

    /// The mark of the other player; a state that is no player's mark has
    /// no rival and stands for itself.
    pub open spec fn rival(self) -> CellState {
        match self {
            CellState::Cross => CellState::Circle,
            CellState::Circle => CellState::Cross,
            other => other,
        }
    }

    /// The number that stands for a state.
    pub open spec fn code(self) -> u8 {
        match self {
            CellState::Empty => 0,
            CellState::Cross => 1,
            CellState::Circle => 2,
            CellState::Hover => 3,
        }
    }

    /// The character that shows a state on screen.
    pub open spec fn symbol(self) -> char {
        match self {
            CellState::Empty => ' ',
            CellState::Cross => 'X',
            CellState::Circle => 'O',
            CellState::Hover => '@',
        }
    }

    /// Whether a mark can still be put on a square in this state.
    pub fn is_free(&self) -> (b: bool)
        ensures
            b == self.free(),
    {
        *self == CellState::Empty || *self == CellState::Hover
    }

    /// The state that `value` stands for. Only 0 to 3 stand for a state.
    pub fn from_code(value: u8) -> (cell: Self)
        requires
            value <= 3,
        ensures
            cell.code() == value,
    {
        if value == 0 {
            CellState::Empty
        } else if value == 1 {
            CellState::Cross
        } else if value == 2 {
            CellState::Circle
        } else {
            CellState::Hover
        }
    }

    /// The character that shows this state on screen.
    pub fn glyph(&self) -> (g: char)
        ensures
            g == self.symbol(),
    {
        match self {
            CellState::Empty => ' ',
            CellState::Cross => 'X',
            CellState::Circle => 'O',
            CellState::Hover => '@',
        }
    }
}

impl From<CellState> for u8 {
    /// The number that stands for `value`.
    fn from(value: CellState) -> (code: u8) {
        match value {
            CellState::Empty => 0,
            CellState::Cross => 1,
            CellState::Circle => 2,
            CellState::Hover => 3,
        }
    }
}

impl FromSpecImpl<CellState> for u8 {
    open spec fn obeys_from_spec() -> bool {
        true
    }

    open spec fn from_spec(value: CellState) -> u8 {
        value.code()
    }
}

} // verus!

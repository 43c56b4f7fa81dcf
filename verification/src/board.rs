use crate::cell::CellState;
use vstd::prelude::*;

verus! {

/// The grid `grid` after square (`r`, `c`) has been set to `cell_state`; the
/// same grid where it has no such square.
pub open spec fn grid_with(
    grid: Seq<Seq<CellState>>,
    r: int,
    c: int,
    cell_state: CellState,
) -> Seq<Seq<CellState>> {
    if 0 <= r < grid.len() && 0 <= c < grid[r].len() {
        grid.update(r, grid[r].update(c, cell_state))
    } else {
        grid
    }
}

/// An `N` by `N` grid of squares, addressed by row and column from the top
/// left corner.
#[derive(Debug)]
pub struct GameMatrix<const N: usize>([[CellState; N]; N]);

impl<const N: usize> View for GameMatrix<N> {
    type V = Seq<Seq<CellState>>;

    /// The grid as `N` rows of `N` squares each.
    open spec fn view(&self) -> Seq<Seq<CellState>> {
        Seq::new(N as nat, |r: int| Seq::new(N as nat, |c: int| self.at(r, c)))
    }
}

impl<const N: usize> Default for GameMatrix<N> {
    /// The board before the first move: every square is empty.
    fn default() -> (board: Self)
        ensures
            board@ == Seq::new(N as nat, |r: int| Seq::new(N as nat, |c: int| CellState::Empty)),
    {
        let row = [CellState::Empty; N];
        assert(row == vstd::array::spec_array_fill_for_copy_type::<CellState, N>(CellState::Empty));
        let grid = [row; N];
        assert(grid == vstd::array::spec_array_fill_for_copy_type::<[CellState; N], N>(row));
        let board = GameMatrix(grid);
        assert(board@ =~~= Seq::new(
            N as nat,
            |r: int| Seq::new(N as nat, |c: int| CellState::Empty),
        ));
        board
    }
}

impl<const N: usize> GameMatrix<N> {
    /// The square in row `r`, column `c`.
    pub closed spec fn at(self, r: int, c: int) -> CellState {
        self.0@[r]@[c]
    }

    /// Whether (`r`, `c`) names a square of the grid.
    pub open spec fn in_grid(r: int, c: int) -> bool {
        0 <= r < N && 0 <= c < N
    }

    /// A square of the grid that holds no committed mark. Coordinates
    /// outside the grid name no free square.
    pub open spec fn is_free(self, r: int, c: int) -> bool {
        Self::in_grid(r, c) && self@[r][c].free()
    }

    /// Whether any square is still free.
    pub open spec fn any_free(self) -> bool {
        exists|r: int, c: int| self.is_free(r, c)
    }

    /// Whether every square is still free.
    pub open spec fn all_free(self) -> bool {
        forall|r: int, c: int| Self::in_grid(r, c) ==> #[trigger] self.is_free(r, c)
    }

    /// The number of rows, which is the number of columns.
    pub fn size(&self) -> (n: usize)
        ensures
            n == N,
    {
        N
    }

    /// Reads a square; `None` outside the grid.
    pub fn read_cell(&self, r: usize, c: usize) -> (cell: Option<CellState>)
        ensures
            cell == if Self::in_grid(r as int, c as int) {
                Some(self@[r as int][c as int])
            } else {
                None
            },
    {
        if c >= N || r >= N {
            return None;
        }
        Some(self.0[r][c])
    }

    /// Whether (`r`, `c`) is a square of the grid on which a mark can
    /// still be put.
    pub fn cell_free(&self, r: usize, c: usize) -> (b: bool)
        ensures
            b == self.is_free(r as int, c as int),
    {
        c < N && r < N && self.0[r][c].is_free()
    }

    /// Sets one square. Outside the grid nothing is written and `None`
    /// comes back. What the square held before does not matter.
    pub fn write_to_cell(&mut self, r: usize, c: usize, cell_state: CellState) -> (done: Option<()>)
        ensures
            done.is_some() == Self::in_grid(r as int, c as int),
            final(self)@ == grid_with(old(self)@, r as int, c as int, cell_state),
            Self::in_grid(r as int, c as int) ==> final(self)@[r as int][c as int] == cell_state,
            !Self::in_grid(r as int, c as int) ==> *final(self) == *old(self),
    {
        if c >= N || r >= N {
            return None;
        }
        self.0[r][c] = cell_state;
        assert(self@ =~~= grid_with(old(self)@, r as int, c as int, cell_state));
        Some(())
    }

    /// Looks for a free square, row by row.
    pub fn has_free_cell(&self) -> (found: bool)
        ensures
            found == self.any_free(),
    {
        let mut r: usize = 0;
        while r < N
            invariant
                r <= N,
                forall|i: int, j: int| 0 <= i < r ==> !self.is_free(i, j),
            decreases N - r,
        {
            let mut c: usize = 0;
            while c < N
                invariant
                    r < N,
                    c <= N,
                    forall|i: int, j: int| 0 <= i < r ==> !self.is_free(i, j),
                    forall|j: int| 0 <= j < c ==> !self.is_free(r as int, j),
                decreases N - c,
            {
                if self.0[r][c].is_free() {
                    assert(self.is_free(r as int, c as int));
                    return true;
                }
                c += 1;
            }
            r += 1;
        }
        false
    }
}

} // verus!

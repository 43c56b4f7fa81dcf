use crate::board::GameMatrix;
use vstd::arithmetic::div_mod::{
    lemma_fundamental_div_mod, lemma_fundamental_div_mod_converse, lemma_mod_multiples_vanish,
    lemma_small_mod,
};
use vstd::prelude::*;

verus! {

/// The way in which the selection cursor is asked to move.
#[derive(Debug, PartialEq, Eq, Structural, Clone, Copy)]
pub enum Direction {
    Up,
    Right,
    Down,
    Left,
}

impl Direction {
    /// Left and right walk the grid row by row, up and down column by
    /// column.
    pub open spec fn horizontal(self) -> bool {
        self == Direction::Right || self == Direction::Left
    }

    /// Right and down walk towards higher positions, left and up towards
    /// lower ones.
    pub open spec fn forward(self) -> bool {
        self == Direction::Right || self == Direction::Down
    }
}

/// The place of square (`r`, `c`) in the order in which `direction` walks an
/// `n` by `n` grid: row after row for the horizontal directions, column
/// after column for the vertical ones.
pub open spec fn position(n: int, r: int, c: int, direction: Direction) -> int {
    if direction.horizontal() {
        r * n + c
    } else {
        c * n + r
    }
}

/// The square at place `p` of that order.
pub open spec fn cell_at(n: int, p: int, direction: Direction) -> (int, int) {
    if direction.horizontal() {
        (p / n, p % n)
    } else {
        (p % n, p / n)
    }
}

/// The place reached from `p` by `t` steps in `direction`. Past either end
/// of the order the walk goes on from the other end.
pub open spec fn advance(n: int, p: int, direction: Direction, t: int) -> int {
    if direction.forward() {
        (p + t) % (n * n)
    } else {
        (p - t) % (n * n)
    }
}

/// Adding or taking away a remainder, in place of the number itself, does
/// not change a sum's remainder.
pub proof fn lemma_mod_absorb(x: int, y: int, m: int)
    requires
        m > 0,
    ensures
        (y + x % m) % m == (y + x) % m,
        (y - x % m) % m == (y - x) % m,
{
    lemma_fundamental_div_mod(x, m);
    lemma_mod_multiples_vanish(x / m, y + x % m, m);
    lemma_mod_multiples_vanish(-(x / m), y - x % m, m);
    assert(m * (x / m) + (y + x % m) == y + x);
    assert(m * (-(x / m)) + (y - x % m) == y - x) by (nonlinear_arith)
        requires
            x == m * (x / m) + x % m,
    ;
}

/// The places of an `n` by `n` grid are 0 to `n * n - 1`, and `cell_at`
/// undoes `position` on them.
pub proof fn lemma_position_of_cell(n: int, r: int, c: int, direction: Direction)
    requires
        0 <= r < n,
        0 <= c < n,
    ensures
        0 <= position(n, r, c, direction) < n * n,
        cell_at(n, position(n, r, c, direction), direction) == (r, c),
{
    assert(0 <= r * n + c < n * n && 0 <= c * n + r < n * n) by (nonlinear_arith)
        requires
            0 <= r < n,
            0 <= c < n,
    ;
    lemma_fundamental_div_mod_converse(r * n + c, n, r, c);
    lemma_fundamental_div_mod_converse(c * n + r, n, c, r);
}

/// Each place from 0 to `n * n - 1` is the place of one square of the grid.
pub proof fn lemma_cell_of_position(n: int, p: int, direction: Direction)
    requires
        n > 0,
        0 <= p < n * n,
    ensures
        0 <= cell_at(n, p, direction).0 < n,
        0 <= cell_at(n, p, direction).1 < n,
        position(n, cell_at(n, p, direction).0, cell_at(n, p, direction).1, direction) == p,
{
    lemma_fundamental_div_mod(p, n);
    assert(0 <= p / n < n) by (nonlinear_arith)
        requires
            0 <= p < n * n,
            n > 0,
            p == n * (p / n) + p % n,
            0 <= p % n < n,
    ;
    assert((p / n) * n == n * (p / n)) by (nonlinear_arith);
}

/// Walking `a` steps and then `b` steps is walking `a + b` steps.
pub proof fn lemma_advance_twice(n: int, p: int, direction: Direction, a: int, b: int)
    requires
        n > 0,
    ensures
        advance(n, advance(n, p, direction, a), direction, b) == advance(
            n,
            p,
            direction,
            a + b,
        ),
        0 <= advance(n, p, direction, a) < n * n,
{
    let m = n * n;
    assert(m > 0) by (nonlinear_arith)
        requires
            n > 0,
            m == n * n,
    ;
    lemma_mod_absorb(p + a, b, m);
    lemma_mod_absorb(p - a, -b, m);
    assert(b + (p + a) == p + (a + b));
    assert(-b + (p - a) == p - (a + b));
}

impl<const N: usize> GameMatrix<N> {
    /// Whether the square at place `p` of `direction`'s order is free.
    pub open spec fn free_at(self, p: int, direction: Direction) -> bool {
        self.is_free(cell_at(N as int, p, direction).0, cell_at(N as int, p, direction).1)
    }

    /// Whether a walk from place `p` meets its first free square after
    /// exactly `t` steps.
    pub open spec fn first_free_after(self, p: int, direction: Direction, t: int) -> bool {
        &&& 1 <= t
        &&& self.free_at(advance(N as int, p, direction, t), direction)
        &&& forall|u: int|
            1 <= u < t ==> !self.free_at(#[trigger] advance(N as int, p, direction, u), direction)
    }

    /// The number of steps after which a walk from place `p` meets its
    /// first free square.
    pub open spec fn steps_to_free(self, p: int, direction: Direction) -> int {
        choose|t: int| self.first_free_after(p, direction, t)
    }

    /// The first free square that a walk from (`r`, `c`) in `direction`
    /// meets. The walk starts with a step: it comes back to (`r`, `c`)
    /// only after it has seen every other square.
    pub open spec fn next_free(self, r: int, c: int, direction: Direction) -> (int, int) {
        let p = position(N as int, r, c, direction);
        cell_at(N as int, advance(N as int, p, direction, self.steps_to_free(p, direction)), direction)
    }

    /// Only one number of steps leads to the first free square.
    pub proof fn lemma_steps_to_free(self, p: int, direction: Direction, t: int)
        requires
            self.first_free_after(p, direction, t),
        ensures
            self.steps_to_free(p, direction) == t,
    {
        let s = self.steps_to_free(p, direction);
        assert(self.first_free_after(p, direction, s));
        if s < t {
            assert(!self.free_at(advance(N as int, p, direction, s), direction));
        }
        if t < s {
            assert(!self.free_at(advance(N as int, p, direction, t), direction));
        }
    }

    /// A free square is at most `N * N` steps away, wherever the walk
    /// starts.
    proof fn lemma_free_within_reach(self, p: int, direction: Direction) -> (t: int)
        requires
            self.any_free(),
        ensures
            1 <= t <= N * N,
            self.free_at(advance(N as int, p, direction, t), direction),
    {
        let n = N as int;
        let m = n * n;
        let (r, c) = choose|r: int, c: int| self.is_free(r, c);
        assert(self.is_free(r, c));
        lemma_position_of_cell(n, r, c, direction);
        let q = position(n, r, c, direction);
        let gap = if direction.forward() {
            (q - p) % m
        } else {
            (p - q) % m
        };
        lemma_mod_absorb(q - p, p, m);
        lemma_mod_absorb(p - q, p, m);
        lemma_small_mod(q as nat, m as nat);
        assert(p + (q - p) == q);
        assert(p - (p - q) == q);
        assert(advance(n, p, direction, gap) == q);
        if gap == 0 {
            lemma_mod_multiples_vanish(1, p, m);
            lemma_mod_multiples_vanish(-1, p, m);
            assert(m * 1 + p == p + m && m * (-1) + p == p - m) by (nonlinear_arith);
            assert(advance(n, p, direction, m) == q);
            m
        } else {
            gap
        }
    }

    /// Finds the next free square for the cursor: steps from (`r_in`,
    /// `c_in`) in `direction`, over the edge of the grid into the next row
    /// or column and from the last square to the first, until the square
    /// reached is free.
    pub fn first_free_cell(&self, r_in: usize, c_in: usize, direction: Direction) -> (cell: (
        usize,
        usize,
    ))
        requires
            self.any_free(),
        ensures
            (cell.0 as int, cell.1 as int) == self.next_free(r_in as int, c_in as int, direction),
            self.is_free(cell.0 as int, cell.1 as int),
    {
        let horizontal = direction == Direction::Right || direction == Direction::Left;
        let forward = direction == Direction::Right || direction == Direction::Down;
        let n: u128 = N as u128;
        let ghost start = position(N as int, r_in as int, c_in as int, direction);
        let ghost reach = self.lemma_free_within_reach(start, direction);
        assert(n * n <= 0xffff_ffff_ffff_ffff * 0xffff_ffff_ffff_ffff && n * n > 0)
            by (nonlinear_arith)
            requires
                0 < n <= 0xffff_ffff_ffff_ffff,
        ;
        let cells: u128 = n * n;
        let mut r: usize = r_in;
        let mut c: usize = c_in;
        let ghost mut t: int = 0;
        loop
            invariant
                0 < n == N,
                cells == n * n,
                start == position(N as int, r_in as int, c_in as int, direction),
                horizontal == direction.horizontal(),
                forward == direction.forward(),
                0 <= t < reach <= cells,
                self.free_at(advance(N as int, start, direction, reach), direction),
                position(N as int, r as int, c as int, direction) == if t == 0 {
                    start
                } else {
                    advance(N as int, start, direction, t)
                },
                forall|u: int|
                    1 <= u <= t ==> !self.free_at(
                        #[trigger] advance(N as int, start, direction, u),
                        direction,
                    ),
            decreases reach - t,
        {
            assert(r * n <= 0xffff_ffff_ffff_ffff * 0xffff_ffff_ffff_ffff && c * n
                <= 0xffff_ffff_ffff_ffff * 0xffff_ffff_ffff_ffff) by (nonlinear_arith)
                requires
                    0 <= r <= 0xffff_ffff_ffff_ffff,
                    0 <= c <= 0xffff_ffff_ffff_ffff,
                    0 < n <= 0xffff_ffff_ffff_ffff,
            ;
            let idx: u128 = if horizontal {
                r as u128 * n + c as u128
            } else {
                c as u128 * n + r as u128
            };
            let next: u128 = if forward {
                (idx + 1) % cells
            } else if idx == 0 {
                cells - 1
            } else {
                (idx - 1) % cells
            };
            proof {
                if !forward && idx == 0 {
                    lemma_mod_multiples_vanish(-1, cells - 1, cells as int);
                    lemma_small_mod((cells - 1) as nat, cells as nat);
                    assert(cells * (-1) + (cells - 1) == -1) by (nonlinear_arith);
                }
                assert(next == advance(N as int, idx as int, direction, 1));
                lemma_advance_twice(N as int, start, direction, t, 1);
                assert(next == advance(N as int, start, direction, t + 1));
                lemma_cell_of_position(N as int, next as int, direction);
            }
            let quotient: usize = (next / n) as usize;
            let remainder: usize = (next % n) as usize;
            if horizontal {
                r = quotient;
                c = remainder;
            } else {
                r = remainder;
                c = quotient;
            }
            proof {
                t = t + 1;
            }
            if self.cell_free(r, c) {
                proof {
                    assert(self.first_free_after(start, direction, t));
                    self.lemma_steps_to_free(start, direction, t);
                }
                return (r, c);
            }
        }
    }
}

} // verus!

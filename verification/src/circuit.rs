//! Where repeated moves of the cursor lead: the free squares form one
//! circuit, which every direction walks in its own order.

use crate::board::GameMatrix;
use crate::navigator::{
    advance, cell_at, lemma_cell_of_position, lemma_position_of_cell, position, Direction,
};
use vstd::arithmetic::div_mod::{
    lemma_fundamental_div_mod, lemma_mod_multiples_vanish, lemma_small_mod,
};
use vstd::prelude::*;
use vstd::relations::injective_on;
use vstd::set_lib::lemma_map_size;

verus! {

/// The remainder of a number that lies less than one `m` outside 0 to `m - 1`.
proof fn lemma_mod_near(x: int, m: int)
    requires
        m > 0,
        -m <= x < 2 * m,
    ensures
        x % m == if x < 0 {
            x + m
        } else if x < m {
            x
        } else {
            x - m
        },
{
    if x < 0 {
        lemma_mod_multiples_vanish(-1, x + m, m);
        lemma_small_mod((x + m) as nat, m as nat);
        assert(m * (-1) + (x + m) == x) by (nonlinear_arith);
    } else if x < m {
        lemma_small_mod(x as nat, m as nat);
    } else {
        lemma_mod_multiples_vanish(1, x - m, m);
        lemma_small_mod((x - m) as nat, m as nat);
        assert(m * 1 + (x - m) == x) by (nonlinear_arith);
    }
}

/// Counting `moves` steps up or down from `x`, modulo `k`, leads back to
/// `x` exactly when `k` divides `moves`.
proof fn lemma_period(x: int, step: int, moves: int, k: int)
    requires
        k > 0,
        0 <= x < k,
        step == 1 || step == -1,
        0 <= moves,
    ensures
        ((x + step * moves) % k == x) <==> moves % k == 0,
{
    let e = moves % k;
    let j = moves / k;
    lemma_fundamental_div_mod(moves, k);
    lemma_mod_multiples_vanish(step * j, x + step * e, k);
    assert(k * (step * j) + (x + step * e) == x + step * moves) by (nonlinear_arith)
        requires
            moves == k * j + e,
    ;
    assert(step * e == if step == 1 {
        e
    } else {
        -e
    }) by (nonlinear_arith)
        requires
            step == 1 || step == -1,
    ;
    lemma_mod_near(x + step * e, k);
}

impl<const N: usize> GameMatrix<N> {
    /// The square that the cursor rests on after `moves` moves in
    /// `direction`, starting from (`r`, `c`).
    pub open spec fn walk(self, r: int, c: int, direction: Direction, moves: nat) -> (int, int)
        decreases moves,
    {
        if moves == 0 {
            (r, c)
        } else {
            let before = self.walk(r, c, direction, (moves - 1) as nat);
            self.next_free(before.0, before.1, direction)
        }
    }

    /// The free squares of the board.
    pub open spec fn free_cells(self) -> Set<(int, int)> {
        Set::new(|cell: (int, int)| self.is_free(cell.0, cell.1))
    }

    /// How many of the places below `p`, in `direction`'s order, are free.
    spec fn free_below(self, direction: Direction, p: int) -> nat
        decreases p,
    {
        if p <= 0 {
            0
        } else {
            self.free_below(direction, p - 1) + if self.free_at(p - 1, direction) {
                1nat
            } else {
                0nat
            }
        }
    }

    /// The free places below `b`.
    spec fn free_places(self, direction: Direction, b: int) -> Set<int> {
        Set::new(|p: int| 0 <= p < b && self.free_at(p, direction))
    }

    proof fn lemma_free_below_gap(self, direction: Direction, a: int, b: int)
        requires
            0 <= a <= b,
            forall|x: int| a <= x < b ==> !self.free_at(x, direction),
        ensures
            self.free_below(direction, b) == self.free_below(direction, a),
        decreases b - a,
    {
        if a < b {
            self.lemma_free_below_gap(direction, a, b - 1);
        }
    }

    proof fn lemma_free_below_grows(self, direction: Direction, a: int, b: int)
        requires
            0 <= a <= b,
        ensures
            self.free_below(direction, a) <= self.free_below(direction, b),
            a < b && self.free_at(a, direction) ==> self.free_below(direction, a)
                < self.free_below(direction, b),
        decreases b - a,
    {
        if a < b {
            self.lemma_free_below_grows(direction, a, b - 1);
        }
    }

    proof fn lemma_free_places_len(self, direction: Direction, b: int)
        requires
            0 <= b,
        ensures
            self.free_places(direction, b).finite(),
            self.free_places(direction, b).len() == self.free_below(direction, b),
        decreases b,
    {
        if b == 0 {
            assert(self.free_places(direction, b) =~= Set::<int>::empty());
        } else {
            self.lemma_free_places_len(direction, b - 1);
            if self.free_at(b - 1, direction) {
                assert(self.free_places(direction, b) =~= self.free_places(
                    direction,
                    b - 1,
                ).insert(b - 1));
            } else {
                assert(self.free_places(direction, b) =~= self.free_places(direction, b - 1));
            }
        }
    }

    /// Whatever the direction, the free places are as many as the free
    /// squares.
    proof fn lemma_free_count(self, direction: Direction)
        ensures
            self.free_cells().finite(),
            self.free_cells().len() == self.free_below(direction, N * N),
    {
        let n = N as int;
        let m = n * n;
        assert(m >= 0) by (nonlinear_arith)
            requires
                m == n * n,
        ;
        let places = self.free_places(direction, m);
        self.lemma_free_places_len(direction, m);
        let f = |p: int| cell_at(n, p, direction);
        assert(injective_on(f, places)) by {
            assert forall|p1: int, p2: int|
                places.contains(p1) && places.contains(p2) && #[trigger] f(p1) == #[trigger] f(
                    p2,
                ) implies p1 == p2 by {
                lemma_cell_of_position(n, p1, direction);
                lemma_cell_of_position(n, p2, direction);
            }
        }
        assert(places.map(f) =~= self.free_cells()) by {
            assert forall|cell: (int, int)| self.free_cells().contains(cell) implies places.map(
                f,
            ).contains(cell) by {
                lemma_position_of_cell(n, cell.0, cell.1, direction);
                let p = position(n, cell.0, cell.1, direction);
                assert(places.contains(p) && f(p) == cell);
            }
        }
        lemma_map_size(places, self.free_cells(), f);
    }

    /// Where every square is free, so is every place.
    proof fn lemma_free_below_all(self, direction: Direction, p: int)
        requires
            forall|r: int, c: int| Self::in_grid(r, c) ==> self.is_free(r, c),
            0 <= p <= N * N,
        ensures
            self.free_below(direction, p) == p,
        decreases p,
    {
        if p > 0 {
            self.lemma_free_below_all(direction, p - 1);
            assert(N > 0) by (nonlinear_arith)
                requires
                    0 < p <= N * N,
            ;
            lemma_cell_of_position(N as int, p - 1, direction);
            assert(self.free_at(p - 1, direction));
        }
    }

    /// Below a witness there is a first free square.
    proof fn lemma_first_free_exists(self, p: int, direction: Direction, w: int)
        requires
            1 <= w,
            self.free_at(advance(N as int, p, direction, w), direction),
        ensures
            1 <= self.steps_to_free(p, direction) <= w,
            self.first_free_after(p, direction, self.steps_to_free(p, direction)),
        decreases w,
    {
        if exists|u: int|
            1 <= u < w && self.free_at(#[trigger] advance(N as int, p, direction, u), direction) {
            let u = choose|u: int|
                1 <= u < w && self.free_at(
                    #[trigger] advance(N as int, p, direction, u),
                    direction,
                );
            self.lemma_first_free_exists(p, direction, u);
        } else {
            assert(self.first_free_after(p, direction, w));
            self.lemma_steps_to_free(p, direction, w);
        }
    }

    /// One move of the cursor, seen in the order of its direction: from a
    /// free place it leads to the free place that comes next, or comes
    /// before, and from the last to the first.
    proof fn lemma_step_rank(self, direction: Direction, p: int)
        requires
            0 <= p < N * N,
            self.free_at(p, direction),
        ensures
            ({
                let q = advance(N as int, p, direction, self.steps_to_free(p, direction));
                let k = self.free_below(direction, N * N) as int;
                let step = if direction.forward() {
                    1int
                } else {
                    -1int
                };
                &&& 0 <= q < N * N
                &&& self.free_at(q, direction)
                &&& k > 0
                &&& self.free_below(direction, q) == (self.free_below(direction, p) + step) % k
            }),
    {
        let n = N as int;
        let m = n * n;
        let k = self.free_below(direction, m) as int;
        assert(advance(n, p, direction, m) == p) by {
            lemma_mod_near(p + m, m);
            lemma_mod_near(p - m, m);
        }
        self.lemma_first_free_exists(p, direction, m);
        let t = self.steps_to_free(p, direction);
        let q = advance(n, p, direction, t);
        self.lemma_free_below_grows(direction, p, m);
        if direction.forward() {
            lemma_mod_near(p + t, m);
            assert forall|x: int| p < x < p + t && x < m implies !self.free_at(x, direction) by {
                lemma_mod_near(x, m);
                assert(advance(n, p, direction, x - p) == x);
            }
            if p + t < m {
                self.lemma_free_below_gap(direction, p + 1, q);
                self.lemma_free_below_grows(direction, q, m);
                lemma_mod_near(self.free_below(direction, p) as int + 1, k);
            } else {
                assert forall|x: int| 0 <= x < q implies !self.free_at(x, direction) by {
                    lemma_mod_near(x + m, m);
                    assert(advance(n, p, direction, x + m - p) == x);
                }
                self.lemma_free_below_gap(direction, 0, q);
                self.lemma_free_below_gap(direction, p + 1, m);
                lemma_mod_near(self.free_below(direction, p) as int + 1, k);
            }
        } else {
            lemma_mod_near(p - t, m);
            assert forall|x: int| p - t < x < p && 0 <= x implies !self.free_at(x, direction) by {
                lemma_mod_near(x, m);
                assert(advance(n, p, direction, p - x) == x);
            }
            if p - t >= 0 {
                self.lemma_free_below_gap(direction, q + 1, p);
                lemma_mod_near(self.free_below(direction, p) as int - 1, k);
            } else {
                assert forall|x: int| q < x < m implies !self.free_at(x, direction) by {
                    lemma_mod_near(x - m, m);
                    assert(advance(n, p, direction, p + m - x) == x);
                }
                self.lemma_free_below_gap(direction, 0, p);
                self.lemma_free_below_gap(direction, q + 1, m);
                lemma_mod_near(self.free_below(direction, p) as int - 1, k);
            }
        }
    }

    /// Each move takes the cursor one free place on in the order of its
    /// direction.
    proof fn lemma_walk_rank(self, r: int, c: int, direction: Direction, moves: nat)
        requires
            self.is_free(r, c),
        ensures
            ({
                let end = self.walk(r, c, direction, moves);
                let k = self.free_below(direction, N * N) as int;
                let step = if direction.forward() {
                    1int
                } else {
                    -1int
                };
                &&& self.is_free(end.0, end.1)
                &&& 0 <= self.free_below(direction, position(N as int, r, c, direction)) < k
                &&& self.free_below(direction, position(N as int, end.0, end.1, direction)) == (
                self.free_below(direction, position(N as int, r, c, direction)) + step * moves)
                    % k
            }),
        decreases moves,
    {
        let n = N as int;
        let m = n * n;
        let k = self.free_below(direction, m) as int;
        let step = if direction.forward() {
            1int
        } else {
            -1int
        };
        let p = position(n, r, c, direction);
        let x = self.free_below(direction, p) as int;
        lemma_position_of_cell(n, r, c, direction);
        self.lemma_free_below_grows(direction, p, m);
        if moves == 0 {
            lemma_small_mod(x as nat, k as nat);
            assert(step * 0 == 0);
        } else {
            let before = self.walk(r, c, direction, (moves - 1) as nat);
            self.lemma_walk_rank(r, c, direction, (moves - 1) as nat);
            let pb = position(n, before.0, before.1, direction);
            lemma_position_of_cell(n, before.0, before.1, direction);
            self.lemma_step_rank(direction, pb);
            let q = advance(n, pb, direction, self.steps_to_free(pb, direction));
            lemma_cell_of_position(n, q, direction);
            assert(self.walk(r, c, direction, moves) == cell_at(n, q, direction));
            crate::navigator::lemma_mod_absorb(x + step * (moves - 1), step, k);
            assert(step + (x + step * (moves - 1)) == x + step * moves) by (nonlinear_arith);
        }
    }

    /// The cursor is back where it started exactly when the number of its
    /// moves is a multiple of the number of free squares: it visits them
    /// all, one after the other, before it comes back.
    pub proof fn lemma_walk_period(self, r: int, c: int, direction: Direction, moves: nat)
        requires
            self.is_free(r, c),
        ensures
            self.free_cells().finite(),
            self.free_cells().len() > 0,
            self.walk(r, c, direction, moves) == (r, c) <==> moves as int % (
            self.free_cells().len() as int) == 0,
    {
        let n = N as int;
        let m = n * n;
        let k = self.free_below(direction, m) as int;
        let step = if direction.forward() {
            1int
        } else {
            -1int
        };
        self.lemma_free_count(direction);
        self.lemma_walk_rank(r, c, direction, moves);
        let end = self.walk(r, c, direction, moves);
        let p = position(n, r, c, direction);
        let pe = position(n, end.0, end.1, direction);
        lemma_position_of_cell(n, r, c, direction);
        lemma_position_of_cell(n, end.0, end.1, direction);
        lemma_period(self.free_below(direction, p) as int, step, moves as int, k);
        if p < pe {
            self.lemma_free_below_grows(direction, p, pe);
        }
        if pe < p {
            self.lemma_free_below_grows(direction, pe, p);
        }
    }

    /// Moving the cursor `N * N` times in one direction brings it back to
    /// the free square on which it started, on every board on which the
    /// number of free squares divides `N * N`: so on the empty board, and
    /// on a board with a single free square.
    pub proof fn lemma_full_circuit(self, r: int, c: int, direction: Direction)
        requires
            self.is_free(r, c),
            (N * N) % (self.free_cells().len() as int) == 0,
        ensures
            self.walk(r, c, direction, (N * N) as nat) == (r, c),
    {
        self.lemma_walk_period(r, c, direction, (N * N) as nat);
    }

    /// While every square is free, `N * N` moves in one direction lead
    /// over the whole grid and back to the start.
    pub proof fn lemma_open_board_circuit(self, r: int, c: int, direction: Direction)
        requires
            Self::in_grid(r, c),
            forall|i: int, j: int| Self::in_grid(i, j) ==> self.is_free(i, j),
        ensures
            self.free_cells().len() == N * N,
            self.walk(r, c, direction, (N * N) as nat) == (r, c),
    {
        let m = N as int * N as int;
        assert(m > 0) by (nonlinear_arith)
            requires
                N > 0,
                m == N as int * N as int,
        ;
        self.lemma_free_count(direction);
        self.lemma_free_below_all(direction, m);
        assert(m % m == 0) by (nonlinear_arith)
            requires
                m > 0,
        ;
        self.lemma_full_circuit(r, c, direction);
    }
}

} // verus!

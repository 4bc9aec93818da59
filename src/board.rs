//! Board geometry: coordinates on a toroidal grid and their Moore neighbourhood.
use vstd::arithmetic::div_mod::{lemma_fundamental_div_mod, lemma_fundamental_div_mod_converse};
use vstd::prelude::*;

verus! {

/// Number of columns of the board.
pub const BOARD_WIDTH: usize = 1000;

/// Number of rows of the board.
pub const BOARD_HEIGHT: usize = 500;

/// Number of cells on the board.
pub const BOARD_CELLS: u64 = 500000;

/// A cell coordinate; `x` is the column, `y` the row.
#[derive(Clone, Copy, Debug, Default, PartialEq, Eq, Structural, Hash)]
pub struct Position {
    pub x: usize,
    pub y: usize,
}

/// Folds any integer into `[0, n)` the way a torus does (true modulo).
pub open spec fn wrap_axis(v: int, n: int) -> int {
    v % n
}

/// The position that the integer pair `(x, y)` denotes on the torus.
pub open spec fn wrap_spec(x: int, y: int) -> Position {
    Position {
        x: wrap_axis(x, BOARD_WIDTH as int) as usize,
        y: wrap_axis(y, BOARD_HEIGHT as int) as usize,
    }
}

/// The eight Moore offsets, in the order the neighbours are listed.
pub open spec fn offset(i: int) -> (int, int) {
    if i == 0 {
        (-1, -1)
    } else if i == 1 {
        (0, -1)
    } else if i == 2 {
        (1, -1)
    } else if i == 3 {
        (-1, 0)
    } else if i == 4 {
        (1, 0)
    } else if i == 5 {
        (-1, 1)
    } else if i == 6 {
        (0, 1)
    } else {
        (1, 1)
    }
}

impl Position {
    /// Both coordinates lie on the board.
    pub open spec fn valid(self) -> bool {
        self.x < BOARD_WIDTH && self.y < BOARD_HEIGHT
    }

    /// The `i`-th neighbour, for `i` in `0..8`.
    pub open spec fn neighbour(self, i: int) -> Position {
        wrap_spec(self.x + offset(i).0, self.y + offset(i).1)
    }

    /// The eight neighbours, in order.
    pub open spec fn neighbour_seq(self) -> Seq<Position> {
        Seq::new(8, |i: int| self.neighbour(i))
    }

    /// `other` is one of the eight neighbours of `self`.
    pub open spec fn is_neighbour(self, other: Position) -> bool {
        exists|i: int| 0 <= i < 8 && self.neighbour(i) == other
    }

    /// Folds an arbitrary integer pair onto the board.
    pub fn wrap(x: i32, y: i32) -> (r: Position)
        ensures
            r == wrap_spec(x as int, y as int),
            r.valid(),
    {
        Position { x: wrap_coord(x, BOARD_WIDTH), y: wrap_coord(y, BOARD_HEIGHT) }
    }

    /// The eight wrapped neighbours: the row above, the two beside, the row below.
    pub fn neighbours(&self) -> (r: Vec<Position>)
        requires
            self.valid(),
        ensures
            r@ == self.neighbour_seq(),
    {
        let x = self.x as i32;
        let y = self.y as i32;
        let r = vec![
            Self::wrap(x - 1, y - 1),
            Self::wrap(x, y - 1),
            Self::wrap(x + 1, y - 1),
            Self::wrap(x - 1, y),
            Self::wrap(x + 1, y),
            Self::wrap(x - 1, y + 1),
            Self::wrap(x, y + 1),
            Self::wrap(x + 1, y + 1),
        ];
        assert(r@ =~= self.neighbour_seq());
        r
    }
}

/// Wrapping lands inside the board, whatever its size: for every `w × h` board
/// with positive sides and every integer pair, both wrapped coordinates are in range.
pub proof fn lemma_wrap_in_range(x: int, y: int, w: int, h: int)
    requires
        w > 0,
        h > 0,
    ensures
        0 <= wrap_axis(x, w) < w,
        0 <= wrap_axis(y, h) < h,
{
}

/// A wrapped position lies on the board.
pub proof fn lemma_wrap_valid(x: int, y: int)
    ensures
        wrap_spec(x, y).valid(),
{
    lemma_wrap_in_range(x, y, BOARD_WIDTH as int, BOARD_HEIGHT as int);
}

/// Stepping by `d` and back by `-d` on an axis of length `n` returns to the start.
proof fn lemma_step_back(v: int, d: int, n: int)
    requires
        0 <= v < n,
    ensures
        wrap_axis(wrap_axis(v + d, n) - d, n) == v,
{
    lemma_fundamental_div_mod(v + d, n);
    let k = (v + d) / n;
    assert(wrap_axis(v + d, n) - d == (-k) * n + v) by (nonlinear_arith)
        requires
            v + d == n * k + (v + d) % n,
    ;
    lemma_fundamental_div_mod_converse((-k) * n + v, n, -k, v);
}

/// Adjacency on the torus is mutual: a position is a neighbour of each of its
/// own neighbours.
pub proof fn lemma_neighbour_symmetric(p: Position, i: int)
    requires
        p.valid(),
        0 <= i < 8,
    ensures
        p.neighbour(i).is_neighbour(p),
{
    let (dx, dy) = offset(i);
    lemma_step_back(p.x as int, dx, BOARD_WIDTH as int);
    lemma_step_back(p.y as int, dy, BOARD_HEIGHT as int);
    assert(p.neighbour(i).neighbour(7 - i) == p);
}

/// Every element of a position's neighbour list has that position among its own
/// neighbours.
pub proof fn lemma_neighbours_mutual(p: Position)
    requires
        p.valid(),
    ensures
        forall|q: Position| #[trigger] p.neighbour_seq().contains(q) ==> q.is_neighbour(p),
{
    assert forall|q: Position| #[trigger] p.neighbour_seq().contains(q) implies q.is_neighbour(p) by {
        let i = choose|i: int| 0 <= i < 8 && p.neighbour_seq()[i] == q;
        lemma_neighbour_symmetric(p, i);
    }
}

/// Folds `v` into `[0, n)`; negative values land at the high end.
fn wrap_coord(v: i32, n: usize) -> (r: usize)
    requires
        0 < n <= 1000,
    ensures
        r as int == wrap_axis(v as int, n as int),
        r < n,
{
    let m = n as i64;
    let w = v as i64;
    if w >= 0 {
        (w % m) as usize
    } else {
        let a = (-w) % m;
        proof {
            let u = -(w as int);
            let d = m as int;
            let q = u / d;
            lemma_fundamental_div_mod(u, d);
            assert(a as int == u % d);
            assert(w as int == (-q) * d - a) by (nonlinear_arith)
                requires
                    u == d * q + a,
                    w as int == -u,
            ;
            if a == 0 {
                lemma_fundamental_div_mod_converse(w as int, d, -q, 0);
            } else {
                assert(w as int == (-q - 1) * d + (d - a)) by (nonlinear_arith)
                    requires
                        w as int == (-q) * d - a,
                ;
                lemma_fundamental_div_mod_converse(w as int, d, -q - 1, d - a);
            }
        }
        if a == 0 {
            0
        } else {
            (m - a) as usize
        }
    }
}

} // verus!

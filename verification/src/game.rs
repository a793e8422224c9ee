//! Coordinate and grid-size primitives, the actor identity the engines
//! consume, and the interaction result every game hands back to its caller.

use vstd::prelude::*;

verus! {

/// A grid position or offset: (row, column).
#[derive(Clone, Copy, PartialEq, Eq, Structural, Debug)]
pub struct Coord(pub i32, pub i32);

impl Coord {
    /// Component-wise sum of a position and an offset.
    pub fn add(self, other: Coord) -> (r: Coord)
        requires
            i32::MIN <= self.0 + other.0 <= i32::MAX,
            i32::MIN <= self.1 + other.1 <= i32::MAX,
        ensures
            r.0 == self.0 + other.0,
            r.1 == self.1 + other.1,
    {
        Coord(self.0 + other.0, self.1 + other.1)
    }

    /// Component-wise difference of a position and an offset.
    pub fn sub(self, other: Coord) -> (r: Coord)
        requires
            i32::MIN <= self.0 - other.0 <= i32::MAX,
            i32::MIN <= self.1 - other.1 <= i32::MAX,
        ensures
            r.0 == self.0 - other.0,
            r.1 == self.1 - other.1,
    {
        Coord(self.0 - other.0, self.1 - other.1)
    }
}

/// The 8 offsets of the Moore neighborhood, ordered row-major.
pub open spec fn spec_directions() -> Seq<(int, int)> {
    seq![(-1int, -1int), (-1int, 0int), (-1int, 1int), (0int, -1int), (0int, 1int), (1int, -1int), (1int, 0int), (1int, 1int)]
}

/// The `k`-th Moore-neighborhood offset.
pub fn direction(k: usize) -> (d: Coord)
    requires
        k < 8,
    ensures
        d.0 == spec_directions()[k as int].0,
        d.1 == spec_directions()[k as int].1,
        -1 <= d.0 <= 1,
        -1 <= d.1 <= 1,
        d.0 != 0 || d.1 != 0,
{
    match k {
        0 => Coord(-1, -1),
        1 => Coord(-1, 0),
        2 => Coord(-1, 1),
        3 => Coord(0, -1),
        4 => Coord(0, 1),
        5 => Coord(1, -1),
        _ => {
            if k == 6 {
                Coord(1, 0)
            } else {
                Coord(1, 1)
            }
        },
    }
}

/// Two positions are adjacent when they differ and each component differs
/// by at most one; equivalently, when one is the other plus a Moore offset.
pub open spec fn adjacent(a: (int, int), b: (int, int)) -> bool {
    &&& a != b
    &&& -1 <= b.0 - a.0 <= 1
    &&& -1 <= b.1 - a.1 <= 1
}

/// Every Moore offset leads to an adjacent position, and every adjacent
/// position is reached by some Moore offset.
pub proof fn lemma_adjacent_directions(a: (int, int), b: (int, int))
    ensures
        adjacent(a, b) <==> exists|k: int|
            0 <= k < 8 && b == (
                a.0 + #[trigger] spec_directions()[k].0,
                a.1 + spec_directions()[k].1,
            ),
{
    if adjacent(a, b) {
        let d = (b.0 - a.0, b.1 - a.1);
        let k = choose|k: int| 0 <= k < 8 && spec_directions()[k] == d;
        assert(exists|k: int| 0 <= k < 8 && #[trigger] spec_directions()[k] == d) by {
            if d == (-1int, -1int) {
                assert(spec_directions()[0] == d);
            } else if d == (-1int, 0int) {
                assert(spec_directions()[1] == d);
            } else if d == (-1int, 1int) {
                assert(spec_directions()[2] == d);
            } else if d == (0int, -1int) {
                assert(spec_directions()[3] == d);
            } else if d == (0int, 1int) {
                assert(spec_directions()[4] == d);
            } else if d == (1int, -1int) {
                assert(spec_directions()[5] == d);
            } else if d == (1int, 0int) {
                assert(spec_directions()[6] == d);
            } else {
                assert(spec_directions()[7] == d);
            }
        }
        assert(b == (a.0 + spec_directions()[k].0, a.1 + spec_directions()[k].1));
    }
}

/// The position a coordinate denotes.
pub open spec fn pos(c: Coord) -> (int, int) {
    (c.0 as int, c.1 as int)
}

/// A grid size: (rows, columns).
#[derive(Clone, Copy, PartialEq, Eq, Structural, Debug)]
pub struct Size(pub u32, pub u32);

impl Size {
    /// What `contains` decides.
    pub open spec fn spec_contains(self, coord: Coord) -> bool {
        0 <= coord.0 < self.0 && 0 <= coord.1 < self.1
    }

    /// Bounds test: is `coord` a position of a grid of this size?
    pub fn contains(self, coord: Coord) -> (r: bool)
        ensures
            r == self.spec_contains(coord),
    {
        coord.0 >= 0 && (coord.0 as u32) < self.0 && coord.1 >= 0 && (coord.1 as u32) < self.1
    }

    /// Row-major flat index of an in-bounds position.
    pub fn index(self, coord: Coord) -> (r: usize)
        requires
            self.spec_contains(coord),
            self.0 * self.1 <= usize::MAX,
        ensures
            r == coord.0 * self.1 + coord.1,
    {
        proof {
            lemma_row_major_bounds(coord.0 as int, coord.1 as int, self.0 as int, self.1 as int);
        }
        (coord.0 as usize) * (self.1 as usize) + (coord.1 as usize)
    }

    /// Number of cells of a grid of this size.
    pub fn size(self) -> (r: u32)
        requires
            self.0 * self.1 <= u32::MAX,
        ensures
            r == self.0 * self.1,
    {
        self.0 * self.1
    }

    /// Every in-bounds position exactly once, in row-major order.
    pub fn valid_indices(self) -> (v: Vec<Coord>)
        requires
            self.0 * self.1 <= usize::MAX,
            self.0 <= i32::MAX,
            self.1 <= i32::MAX,
        ensures
            v@.len() == self.0 * self.1,
            forall|r: int, c: int|
                0 <= r < self.0 && 0 <= c < self.1 ==> #[trigger] v@[r * self.1 + c] == Coord(
                    r as i32,
                    c as i32,
                ),
    {
        let mut v: Vec<Coord> = Vec::new();
        let mut i: u32 = 0;
        while i < self.0
            invariant
                0 <= i <= self.0,
                self.0 * self.1 <= usize::MAX,
                self.0 <= i32::MAX,
                self.1 <= i32::MAX,
                v@.len() == i * self.1,
                forall|r: int, c: int|
                    0 <= r < i && 0 <= c < self.1 ==> #[trigger] v@[r * self.1 + c] == Coord(
                        r as i32,
                        c as i32,
                    ),
            decreases self.0 - i,
        {
            let mut j: u32 = 0;
            proof {
                lemma_row_major_monotone(i as int, self.0 as int, self.1 as int);
            }
            while j < self.1
                invariant
                    0 <= i < self.0,
                    0 <= j <= self.1,
                    self.0 * self.1 <= usize::MAX,
                    self.0 <= i32::MAX,
                    self.1 <= i32::MAX,
                    (i + 1) * self.1 <= self.0 * self.1,
                    v@.len() == i * self.1 + j,
                    forall|r: int, c: int|
                        0 <= r < i && 0 <= c < self.1 ==> #[trigger] v@[r * self.1 + c] == Coord(
                            r as i32,
                            c as i32,
                        ),
                    forall|c: int|
                        0 <= c < j ==> #[trigger] v@[i * self.1 + c] == Coord(i as i32, c as i32),
                decreases self.1 - j,
            {
                v.push(Coord(i as i32, j as i32));
                j = j + 1;
                proof {
                    assert forall|r: int, c: int| 0 <= r < i && 0 <= c < self.1 implies #[trigger] v@[r
                        * self.1 + c] == Coord(r as i32, c as i32) by {
                        lemma_row_major_bounds(r, c, i as int, self.1 as int);
                        assert(r * self.1 + c < i * self.1 + j);
                    }
                }
            }
            i = i + 1;
            proof {
                assert((i - 1) * self.1 + self.1 == i * self.1) by (nonlinear_arith);
                assert forall|r: int, c: int| 0 <= r < i && 0 <= c < self.1 implies #[trigger] v@[r
                    * self.1 + c] == Coord(r as i32, c as i32) by {
                    if r < i - 1 {
                        lemma_row_major_bounds(r, c, i - 1, self.1 as int);
                    }
                }
            }
        }
        v
    }
}

/// Row-major flattening keeps in-bounds positions inside the grid's cell count.
pub proof fn lemma_row_major_bounds(r: int, c: int, rows: int, cols: int)
    requires
        0 <= r < rows,
        0 <= c < cols,
    ensures
        0 <= r * cols + c < rows * cols,
{
    assert(r * cols + c < rows * cols) by (nonlinear_arith)
        requires
            0 <= r < rows,
            0 <= c < cols,
    ;
    assert(r * cols + c >= 0) by (nonlinear_arith)
        requires
            0 <= r,
            0 <= c,
            0 < cols,
    ;
}

/// A full row more never passes the grid's cell count.
pub proof fn lemma_row_major_monotone(i: int, rows: int, cols: int)
    requires
        0 <= i < rows,
        0 <= cols,
    ensures
        (i + 1) * cols <= rows * cols,
{
    assert((i + 1) * cols <= rows * cols) by (nonlinear_arith)
        requires
            0 <= i < rows,
            0 <= cols,
    ;
}

/// Row-major flattening is injective on in-bounds positions.
pub proof fn lemma_row_major_injective(r1: int, c1: int, r2: int, c2: int, cols: int)
    requires
        0 <= c1 < cols,
        0 <= c2 < cols,
        0 <= r1,
        0 <= r2,
        (r1, c1) != (r2, c2),
    ensures
        r1 * cols + c1 != r2 * cols + c2,
{
    assert(r1 * cols + c1 != r2 * cols + c2) by (nonlinear_arith)
        requires
            0 <= c1 < cols,
            0 <= c2 < cols,
            0 <= r1,
            0 <= r2,
            (r1, c1) != (r2, c2),
    ;
}

/// The identity of an actor as the transport layer resolves it: a stable
/// identity token, an optional handle, and a display name.
pub struct Actor {
    pub id: i64,
    pub username: Option<String>,
    pub first_name: String,
}

impl Actor {
    /// The name moves are recorded under: the handle when there is one,
    /// the display name otherwise.
    pub open spec fn spec_display_name(self) -> Seq<char> {
        match self.username {
            Option::Some(u) => u@,
            Option::None => self.first_name@,
        }
    }

    /// The name moves are recorded under.
    pub fn display_name(&self) -> (r: &String)
        ensures
            r@ == self.spec_display_name(),
    {
        match &self.username {
            Option::Some(u) => u,
            Option::None => &self.first_name,
        }
    }
}

/// A rendered board: one (label, callback token) pair per cell, the token
/// holding the cell's coordinate as two whitespace-separated integers.
pub type Board = Vec<Vec<(String, String)>>;

/// What an accepted interaction hands back: refreshed text and board, and
/// whether the game has ended.
pub struct InteractResult {
    pub update_text: Option<String>,
    pub update_board: Option<Board>,
    pub game_end: bool,
}

/// The actor-facing shape of a running game: a single mutating entry point.
/// `None` reports a move with no effect (illegal move, wrong turn, or no
/// grid change).
pub trait Game {
    fn interact(&mut self, coord: Coord, actor: &Actor) -> Option<InteractResult>;
}

} // verus!

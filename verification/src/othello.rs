//! The disc-capture board: an 8x8 grid of optional two-valued ownership,
//! the directional bracket-capture rule, turn-advance with forced passes,
//! and scoring. A move is legal exactly when it lands on an empty cell and
//! brackets at least one opposing disc in some direction.

use vstd::prelude::*;

use crate::counting::{count_matching, lemma_count_matching_push};
use crate::game::{direction, lemma_row_major_injective, pos, spec_directions, Coord};

verus! {

/// Is `p` a position of the 8x8 board?
pub open spec fn in8(p: (int, int)) -> bool {
    0 <= p.0 < 8 && 0 <= p.1 < 8
}

/// The disc a board holds at a position.
pub open spec fn at8(b: Seq<Option<bool>>, p: (int, int)) -> Option<bool> {
    b[p.0 * 8 + p.1]
}

/// The position `i` steps from `p` along offset `d`.
pub open spec fn step(p: (int, int), d: (int, int), i: int) -> (int, int) {
    (p.0 + i * d.0, p.1 + i * d.1)
}

/// A unit offset: each component in -1..=1, not both zero.
pub open spec fn unit_dir(d: (int, int)) -> bool {
    -1 <= d.0 <= 1 && -1 <= d.1 <= 1 && d != (0int, 0int)
}

/// A bracket of length `k` from `p` along `d` for `player`: the cell `k`
/// steps away holds the player's disc, and every cell strictly between
/// holds an opposing disc — at least one, since `k >= 2`.
pub open spec fn ray_ok(
    b: Seq<Option<bool>>,
    p: (int, int),
    d: (int, int),
    player: bool,
    k: int,
) -> bool {
    &&& 2 <= k
    &&& in8(step(p, d, k))
    &&& at8(b, step(p, d, k)) == Some(player)
    &&& forall|i: int|
        1 <= i < k ==> in8(#[trigger] step(p, d, i)) && at8(b, step(p, d, i)) == Some(!player)
}

/// Does the anchor search from `p` along `d` succeed for `player`?
pub open spec fn has_anchor(b: Seq<Option<bool>>, p: (int, int), d: (int, int), player: bool) -> bool {
    exists|k: int| ray_ok(b, p, d, player, k)
}

/// Is `t` strictly between `p` and the anchor along `d` — one of the
/// discs such a capture flips?
pub open spec fn between(
    b: Seq<Option<bool>>,
    p: (int, int),
    d: (int, int),
    player: bool,
    t: (int, int),
) -> bool {
    exists|k: int, i: int| ray_ok(b, p, d, player, k) && 1 <= i < k && t == step(p, d, i)
}

/// Does placing at `p` flip `t` in some direction?
pub open spec fn flips_to(b: Seq<Option<bool>>, p: (int, int), player: bool, t: (int, int)) -> bool {
    exists|k: int| 0 <= k < 8 && between(b, p, #[trigger] spec_directions()[k], player, t)
}

/// Is placing at `p` a legal move for `player`: the cell is empty and
/// some direction yields a bracket?
pub open spec fn play_legal(b: Seq<Option<bool>>, p: (int, int), player: bool) -> bool {
    &&& at8(b, p) == Option::<bool>::None
    &&& exists|k: int| 0 <= k < 8 && has_anchor(b, p, #[trigger] spec_directions()[k], player)
}

/// Does `player` have any legal move on the board?
pub open spec fn spec_has_move(b: Seq<Option<bool>>, player: bool) -> bool {
    exists|p: (int, int)| in8(p) && #[trigger] play_legal(b, p, player)
}

/// The board after a legal placement at `p`: the placed disc plus every
/// bracketed opposing disc now owned by `player`, all else unchanged.
pub open spec fn played_board(b: Seq<Option<bool>>, p: (int, int), player: bool, t: (int, int)) -> Option<bool> {
    if t == p || flips_to(b, p, player, t) {
        Some(player)
    } else {
        at8(b, t)
    }
}

/// A disc owned by `player`.
pub open spec fn pred_disc(player: bool) -> spec_fn(Option<bool>) -> bool {
    |x: Option<bool>| x == Some(player)
}

/// Two brackets from the same cell in the same direction have the same
/// length: the first non-opposing cell along the ray settles it.
pub proof fn lemma_ray_unique(
    b: Seq<Option<bool>>,
    p: (int, int),
    d: (int, int),
    player: bool,
    k1: int,
    k2: int,
)
    requires
        ray_ok(b, p, d, player, k1),
        ray_ok(b, p, d, player, k2),
    ensures
        k1 == k2,
{
    if k1 < k2 {
        assert(at8(b, step(p, d, k1)) == Some(!player));
    }
    if k2 < k1 {
        assert(at8(b, step(p, d, k2)) == Some(!player));
    }
}

/// Steps along a nonzero offset are injective.
pub proof fn lemma_step_injective(p: (int, int), d: (int, int), i: int, j: int)
    requires
        unit_dir(d),
        step(p, d, i) == step(p, d, j),
    ensures
        i == j,
{
    assert(i * d.0 == j * d.0 && i * d.1 == j * d.1);
    if d.0 != 0 {
        assert(i == j) by (nonlinear_arith)
            requires
                i * d.0 == j * d.0,
                d.0 != 0,
        ;
    } else {
        assert(i == j) by (nonlinear_arith)
            requires
                i * d.1 == j * d.1,
                d.1 != 0,
        ;
    }
}

/// Rays from one origin along two different offsets never meet again:
/// a flip along one direction cannot disturb another direction's ray.
pub proof fn lemma_rays_disjoint(
    p: (int, int),
    d1: (int, int),
    d2: (int, int),
    i: int,
    j: int,
)
    requires
        unit_dir(d1),
        unit_dir(d2),
        d1 != d2,
        1 <= i,
        1 <= j,
    ensures
        step(p, d1, i) != step(p, d2, j),
{
    assert(!(i * d1.0 == j * d2.0 && i * d1.1 == j * d2.1)) by (nonlinear_arith)
        requires
            -1 <= d1.0 <= 1,
            -1 <= d1.1 <= 1,
            -1 <= d2.0 <= 1,
            -1 <= d2.1 <= 1,
            !(d1.0 == 0 && d1.1 == 0),
            !(d2.0 == 0 && d2.1 == 0),
            !(d1.0 == d2.0 && d1.1 == d2.1),
            1 <= i,
            1 <= j,
    ;
}

/// Every unit offset is one of the 8 Moore offsets.
pub proof fn lemma_unit_dir_index(d: (int, int))
    requires
        unit_dir(d),
    ensures
        exists|k: int| 0 <= k < 8 && #[trigger] spec_directions()[k] == d,
{
    if d == (-1int, -1int) {
        assert(spec_directions()[0] == d);
    } else if d == (-1int, 0int) {
        assert(spec_directions()[1] == d);
    } else if d == (-1int, 1int) {
        assert(spec_directions()[2] == d);
    } else if d == (0int, -1int) {
        assert(spec_directions()[3] == d);
    } else if d == (0int, 1int) {
        assert(spec_directions()[4] == d);
    } else if d == (1int, -1int) {
        assert(spec_directions()[5] == d);
    } else if d == (1int, 0int) {
        assert(spec_directions()[6] == d);
    } else {
        assert(spec_directions()[7] == d);
    }
}

/// Staying on the board bounds the step count along a nonzero offset.
pub proof fn lemma_step_bound(p: (int, int), d: (int, int), k: int)
    requires
        unit_dir(d),
        in8(p),
        0 <= k,
        in8(step(p, d, k)),
    ensures
        k <= 7,
{
    if d.0 == 1 {
        assert(p.0 + k * 1 < 8);
    } else if d.0 == -1 {
        assert(0 <= p.0 + k * (-1));
    } else if d.1 == 1 {
        assert(p.1 + k * 1 < 8);
    } else {
        assert(0 <= p.1 + k * (-1));
    }
}

/// The anchor search and the flip set only read the ray's cells, so they
/// agree between boards that agree there.
pub proof fn lemma_ray_congruence(
    b1: Seq<Option<bool>>,
    b2: Seq<Option<bool>>,
    p: (int, int),
    d: (int, int),
    player: bool,
)
    requires
        forall|i: int|
            1 <= i && in8(#[trigger] step(p, d, i)) ==> at8(b1, step(p, d, i)) == at8(
                b2,
                step(p, d, i),
            ),
    ensures
        forall|k: int| ray_ok(b1, p, d, player, k) == #[trigger] ray_ok(b2, p, d, player, k),
        has_anchor(b1, p, d, player) == has_anchor(b2, p, d, player),
        forall|t: (int, int)| between(b1, p, d, player, t) == #[trigger] between(b2, p, d, player, t),
{
    assert forall|k: int| ray_ok(b1, p, d, player, k) == #[trigger] ray_ok(
        b2,
        p,
        d,
        player,
        k,
    ) by {
        if ray_ok(b1, p, d, player, k) {
            assert(at8(b2, step(p, d, k)) == Some(player));
            assert(ray_ok(b2, p, d, player, k));
        }
        if ray_ok(b2, p, d, player, k) {
            assert(at8(b1, step(p, d, k)) == Some(player));
            assert(ray_ok(b1, p, d, player, k));
        }
    }
    assert(has_anchor(b1, p, d, player) == has_anchor(b2, p, d, player)) by {
        if has_anchor(b1, p, d, player) {
            let k = choose|k: int| ray_ok(b1, p, d, player, k);
            assert(ray_ok(b2, p, d, player, k));
        }
        if has_anchor(b2, p, d, player) {
            let k = choose|k: int| ray_ok(b2, p, d, player, k);
            assert(ray_ok(b1, p, d, player, k));
        }
    }
    assert forall|t: (int, int)| between(b1, p, d, player, t) == #[trigger] between(
        b2,
        p,
        d,
        player,
        t,
    ) by {
        if between(b1, p, d, player, t) {
            let (k, i) = choose|k: int, i: int|
                ray_ok(b1, p, d, player, k) && 1 <= i < k && t == step(p, d, i);
            assert(ray_ok(b2, p, d, player, k) && 1 <= i < k && t == step(p, d, i));
        }
        if between(b2, p, d, player, t) {
            let (k, i) = choose|k: int, i: int|
                ray_ok(b2, p, d, player, k) && 1 <= i < k && t == step(p, d, i);
            assert(ray_ok(b1, p, d, player, k) && 1 <= i < k && t == step(p, d, i));
        }
    }
}

/// The disc-capture board: the 64 cells in row-major order, whose turn it
/// is, and whether the game has ended. `game_over` is monotonic: play can
/// only set it.
pub struct Othello {
    pub player: bool,
    pub board: Vec<Option<bool>>,
    pub game_over: bool,
}

impl Othello {
    /// The backing vector holds exactly the 64 cells, and once the game
    /// has ended neither player has a legal move left — the flag is set
    /// only by the double-pass rule and never resets.
    pub open spec fn wf(self) -> bool {
        &&& self.board@.len() == 64
        &&& self.game_over ==> !spec_has_move(self.board@, false) && !spec_has_move(
            self.board@,
            true,
        )
    }

    /// The standard opening position: the four center cells preset in the
    /// canonical alternating pattern, first player fixed by convention.
    pub fn new() -> (r: Othello)
        ensures
            r.wf(),
            r.player == false,
            r.game_over == false,
            forall|t: (int, int)|
                in8(t) ==> #[trigger] at8(r.board@, t) == (if t == (3int, 3int) {
                    Some(true)
                } else if t == (3int, 4int) {
                    Some(false)
                } else if t == (4int, 3int) {
                    Some(false)
                } else if t == (4int, 4int) {
                    Some(true)
                } else {
                    Option::<bool>::None
                }),
    {
        let mut board: Vec<Option<bool>> = Vec::new();
        let mut i: usize = 0;
        while i < 64
            invariant
                0 <= i <= 64,
                board@.len() == i,
                forall|j: int| 0 <= j < i ==> #[trigger] board@[j] == Option::<bool>::None,
            decreases 64 - i,
        {
            board.push(None);
            i = i + 1;
        }
        board[3 * 8 + 3] = Some(true);
        board[3 * 8 + 4] = Some(false);
        board[4 * 8 + 3] = Some(false);
        board[4 * 8 + 4] = Some(true);
        let r = Othello { player: false, board, game_over: false };
        proof {
            assert forall|t: (int, int)| in8(t) implies #[trigger] at8(r.board@, t) == (if t == (
                3int,
                3int,
            ) {
                Some(true)
            } else if t == (3int, 4int) {
                Some(false)
            } else if t == (4int, 3int) {
                Some(false)
            } else if t == (4int, 4int) {
                Some(true)
            } else {
                Option::<bool>::None
            }) by {
                if t != (3int, 3int) {
                    lemma_row_major_injective(t.0, t.1, 3, 3, 8);
                }
                if t != (3int, 4int) {
                    lemma_row_major_injective(t.0, t.1, 3, 4, 8);
                }
                if t != (4int, 3int) {
                    lemma_row_major_injective(t.0, t.1, 4, 3, 8);
                }
                if t != (4int, 4int) {
                    lemma_row_major_injective(t.0, t.1, 4, 4, 8);
                }
            }
        }
        r
    }

    /// A board built from an explicit position, for setting up play
    /// situations; `None` when the cell list does not hold exactly the
    /// 64 cells.
    pub fn from_position(cells: Vec<Option<bool>>, player: bool) -> (r: Option<Othello>)
        ensures
            match r {
                Some(g) => {
                    &&& cells@.len() == 64
                    &&& g.wf()
                    &&& g.board@ == cells@
                    &&& g.player == player
                    &&& g.game_over == false
                },
                None => cells@.len() != 64,
            },
    {
        if cells.len() == 64 {
            Some(Othello { player, board: cells, game_over: false })
        } else {
            None
        }
    }

    /// Whose turn it is: `false` for the first player by convention.
    pub fn get_current_player(&self) -> (r: bool)
        ensures
            r == self.player,
    {
        self.player
    }

    pub fn is_game_over(&self) -> (r: bool)
        ensures
            r == self.game_over,
    {
        self.game_over
    }

    /// The disc at an in-bounds cell.
    fn at(&self, coord: Coord) -> (r: Option<bool>)
        requires
            self.wf(),
            in8(pos(coord)),
        ensures
            r == at8(self.board@, pos(coord)),
    {
        proof {
            crate::game::lemma_row_major_bounds(coord.0 as int, coord.1 as int, 8, 8);
        }
        self.board[(coord.0 as usize) * 8 + (coord.1 as usize)]
    }

    /// How many discs each player owns: (first player's, second player's).
    pub fn get_score(&self) -> (r: (u32, u32))
        requires
            self.wf(),
        ensures
            r.0 == count_matching(self.board@, pred_disc(false)),
            r.1 == count_matching(self.board@, pred_disc(true)),
    {
        let mut black: u32 = 0;
        let mut white: u32 = 0;
        let mut i: usize = 0;
        while i < 64
            invariant
                self.wf(),
                0 <= i <= 64,
                black == count_matching(self.board@.subrange(0, i as int), pred_disc(false)),
                white == count_matching(self.board@.subrange(0, i as int), pred_disc(true)),
                black <= i,
                white <= i,
            decreases 64 - i,
        {
            proof {
                assert(self.board@.subrange(0, i + 1).drop_last() =~= self.board@.subrange(
                    0,
                    i as int,
                ));
                assert(self.board@.subrange(0, i + 1).last() == self.board@[i as int]);
            }
            match self.board[i] {
                Some(p) => {
                    if p {
                        white = white + 1;
                    } else {
                        black = black + 1;
                    }
                },
                None => {},
            }
            i = i + 1;
        }
        proof {
            assert(self.board@.subrange(0, 64) =~= self.board@);
        }
        (black, white)
    }

    /// One row of the board, left to right.
    pub fn iter_row(&self, row: usize) -> (v: Vec<Option<bool>>)
        requires
            self.wf(),
            row < 8,
        ensures
            v@.len() == 8,
            forall|c: int| 0 <= c < 8 ==> #[trigger] v@[c] == at8(self.board@, (row as int, c)),
    {
        let mut v: Vec<Option<bool>> = Vec::new();
        let mut c: usize = 0;
        while c < 8
            invariant
                self.wf(),
                row < 8,
                0 <= c <= 8,
                v@.len() == c,
                forall|j: int| 0 <= j < c ==> #[trigger] v@[j] == at8(self.board@, (row as int, j)),
            decreases 8 - c,
        {
            let cell = self.at(Coord(row as i32, c as i32));
            v.push(cell);
            c = c + 1;
        }
        v
    }

    /// Step from `coord` along `direction` until leaving the board or
    /// hitting an empty cell (no anchor), or reaching one of `player`'s
    /// discs — an anchor, valid only if at least one opposing disc lies
    /// strictly between.
    pub fn find_anchor(&self, coord: Coord, direction: Coord, player: bool) -> (r: Option<Coord>)
        requires
            self.wf(),
            in8(pos(coord)),
            unit_dir(pos(direction)),
        ensures
            match r {
                Some(a) => exists|k: int|
                    #[trigger] ray_ok(self.board@, pos(coord), pos(direction), player, k) && pos(a)
                        == step(pos(coord), pos(direction), k),
                None => !has_anchor(self.board@, pos(coord), pos(direction), player),
            },
    {
        let ghost p = pos(coord);
        let ghost dd = pos(direction);
        let mut cur = coord;
        let mut k: u32 = 0;
        let mut valid = false;
        loop
            invariant
                self.wf(),
                in8(p),
                unit_dir(dd),
                p == pos(coord),
                dd == pos(direction),
                0 <= k <= 7,
                pos(cur) == step(p, dd, k as int),
                in8(pos(cur)),
                valid == (k >= 1),
                forall|i: int|
                    1 <= i <= k ==> in8(#[trigger] step(p, dd, i)) && at8(
                        self.board@,
                        step(p, dd, i),
                    ) == Some(!player),
            decreases 8 - k,
        {
            proof {
                lemma_step_bound(p, dd, k as int);
            }
            let next = Coord(cur.0 + direction.0, cur.1 + direction.1);
            proof {
                assert((k + 1) * dd.0 == k * dd.0 + dd.0 && (k + 1) * dd.1 == k * dd.1 + dd.1)
                    by (nonlinear_arith);
                assert(pos(next) == step(p, dd, k + 1));
            }
            if !(next.0 >= 0 && next.0 < 8 && next.1 >= 0 && next.1 < 8) {
                proof {
                    assert forall|k2: int| !ray_ok(self.board@, p, dd, player, k2) by {
                        if ray_ok(self.board@, p, dd, player, k2) {
                            if k2 <= k {
                                assert(at8(self.board@, step(p, dd, k2)) == Some(!player));
                            } else {
                                assert(in8(step(p, dd, k + 1)));
                            }
                        }
                    }
                }
                return None;
            }
            proof {
                assert(in8(step(p, dd, k + 1)));
                lemma_step_bound(p, dd, k + 1);
            }
            k = k + 1;
            cur = next;
            match self.at(cur) {
                None => {
                    proof {
                        assert forall|k2: int| !ray_ok(self.board@, p, dd, player, k2) by {
                            if ray_ok(self.board@, p, dd, player, k2) {
                                if k2 < k {
                                    assert(at8(self.board@, step(p, dd, k2)) == Some(!player));
                                } else if k2 == k {
                                    assert(at8(self.board@, step(p, dd, k2)) == Some(player));
                                } else {
                                    assert(at8(self.board@, step(p, dd, k as int)) == Some(
                                        !player,
                                    ));
                                }
                            }
                        }
                    }
                    return None;
                },
                Some(q) => {
                    if q == player {
                        if valid {
                            proof {
                                assert(ray_ok(self.board@, p, dd, player, k as int));
                            }
                            return Some(cur);
                        } else {
                            proof {
                                assert(k == 1);
                                assert forall|k2: int| !ray_ok(
                                    self.board@,
                                    p,
                                    dd,
                                    player,
                                    k2,
                                ) by {
                                    if ray_ok(self.board@, p, dd, player, k2) {
                                        assert(at8(self.board@, step(p, dd, 1)) == Some(!player));
                                    }
                                }
                            }
                            return None;
                        }
                    } else {
                        valid = true;
                    }
                },
            }
        }
    }

    /// Attempt a capture from `coord` along `direction` for the current
    /// player: if an anchor exists, flip every opposing disc strictly
    /// between and report success; otherwise leave the board unchanged.
    fn capture(&mut self, coord: Coord, direction: Coord) -> (r: bool)
        requires
            old(self).wf(),
            in8(pos(coord)),
            unit_dir(pos(direction)),
            at8(old(self).board@, pos(coord)) == Option::<bool>::None,
        ensures
            final(self).wf(),
            final(self).player == old(self).player,
            final(self).game_over == old(self).game_over,
            final(self).board@.len() == old(self).board@.len(),
            r == has_anchor(old(self).board@, pos(coord), pos(direction), old(self).player),
            !r ==> final(self).board@ == old(self).board@,
            r ==> (forall|t: (int, int)|
                in8(t) ==> #[trigger] at8(final(self).board@, t) == (if between(
                    old(self).board@,
                    pos(coord),
                    pos(direction),
                    old(self).player,
                    t,
                ) {
                    Some(old(self).player)
                } else {
                    at8(old(self).board@, t)
                })),
    {
        let ghost p = pos(coord);
        let ghost dd = pos(direction);
        let ghost b0 = old(self).board@;
        let player = self.player;
        let anchor = self.find_anchor(coord, direction, player);
        match anchor {
            None => false,
            Some(a) => {
                let ghost kk = choose|k: int|
                    #[trigger] ray_ok(b0, p, dd, player, k) && pos(a) == step(p, dd, k);
                proof {
                    // A bracket from an empty cell is a legal move, so the
                    // game cannot already be over.
                    lemma_unit_dir_index(dd);
                    let kd = choose|kd: int| 0 <= kd < 8 && #[trigger] spec_directions()[kd] == dd;
                    assert(has_anchor(b0, p, spec_directions()[kd], player));
                    assert(play_legal(b0, p, player));
                    assert(spec_has_move(b0, player));
                    assert(!old(self).game_over);
                }
                let mut cur = a;
                let ghost mut j: int = kk;
                loop
                    invariant
                        self.wf(),
                        self.player == old(self).player,
                        self.game_over == old(self).game_over,
                        self.game_over == false,
                        self.board@.len() == b0.len(),
                        b0.len() == 64,
                        in8(p),
                        unit_dir(dd),
                        p == pos(coord),
                        dd == pos(direction),
                        player == old(self).player,
                        ray_ok(b0, p, dd, player, kk),
                        1 <= j <= kk,
                        pos(cur) == step(p, dd, j),
                        forall|t: (int, int)|
                            in8(t) ==> #[trigger] at8(self.board@, t) == (if exists|i: int|
                                j <= i < kk && t == #[trigger] step(p, dd, i) {
                                Some(player)
                            } else {
                                at8(b0, t)
                            }),
                    ensures
                        self.wf(),
                        self.player == old(self).player,
                        self.game_over == old(self).game_over,
                        self.board@.len() == b0.len(),
                        forall|t: (int, int)|
                            in8(t) ==> #[trigger] at8(self.board@, t) == (if exists|i: int|
                                1 <= i < kk && t == #[trigger] step(p, dd, i) {
                                Some(player)
                            } else {
                                at8(b0, t)
                            }),
                    decreases j,
                {
                    let next = Coord(cur.0 - direction.0, cur.1 - direction.1);
                    proof {
                        assert((j - 1) * dd.0 == j * dd.0 - dd.0 && (j - 1) * dd.1 == j * dd.1
                            - dd.1) by (nonlinear_arith);
                        assert(pos(next) == step(p, dd, j - 1));
                    }
                    if next.0 == coord.0 && next.1 == coord.1 {
                        proof {
                            lemma_step_injective(p, dd, j - 1, 0);
                            assert(j == 1);
                        }
                        break ;
                    }
                    cur = next;
                    proof {
                        j = j - 1;
                        assert(j != 0) by {
                            if j == 0 {
                                assert(0 * dd.0 == 0 && 0 * dd.1 == 0) by (nonlinear_arith);
                                assert(step(p, dd, 0) == p);
                                assert(pos(cur) == p);
                            }
                        }
                        assert(1 <= j < kk);
                        assert(in8(pos(cur)));
                        crate::game::lemma_row_major_bounds(cur.0 as int, cur.1 as int, 8, 8);
                    }
                    let ghost before = self.board@;
                    self.board[(cur.0 as usize) * 8 + (cur.1 as usize)] = Some(player);
                    proof {
                        assert forall|t: (int, int)| in8(t) implies #[trigger] at8(self.board@, t)
                            == (if exists|i: int| j <= i < kk && t == #[trigger] step(p, dd, i) {
                            Some(player)
                        } else {
                            at8(b0, t)
                        }) by {
                            if t == pos(cur) {
                                assert(t == step(p, dd, j));
                            } else {
                                lemma_row_major_injective(t.0, t.1, pos(cur).0, pos(cur).1, 8);
                                assert(at8(self.board@, t) == at8(before, t));
                                if exists|i: int| j <= i < kk && t == #[trigger] step(p, dd, i) {
                                    let i = choose|i: int|
                                        j <= i < kk && t == #[trigger] step(p, dd, i);
                                    assert(i != j) by {
                                        if i == j {
                                            lemma_step_injective(p, dd, i, j);
                                        }
                                    }
                                    assert(j + 1 <= i < kk && t == step(p, dd, i));
                                }
                            }
                        }
                    }
                }
                proof {
                    assert(has_anchor(b0, p, dd, player)) by {
                        assert(ray_ok(b0, p, dd, player, kk));
                    }
                    assert forall|t: (int, int)| in8(t) implies #[trigger] at8(self.board@, t) == (
                    if between(b0, p, dd, player, t) {
                        Some(player)
                    } else {
                        at8(b0, t)
                    }) by {
                        if between(b0, p, dd, player, t) {
                            let (k2, i) = choose|k2: int, i: int|
                                ray_ok(b0, p, dd, player, k2) && 1 <= i < k2 && t == step(
                                    p,
                                    dd,
                                    i,
                                );
                            lemma_ray_unique(b0, p, dd, player, k2, kk);
                            assert(1 <= i < kk && t == step(p, dd, i));
                        } else {
                            if exists|i: int| 1 <= i < kk && t == #[trigger] step(p, dd, i) {
                                let i = choose|i: int|
                                    1 <= i < kk && t == #[trigger] step(p, dd, i);
                                assert(ray_ok(b0, p, dd, player, kk) && 1 <= i < kk && t == step(
                                    p,
                                    dd,
                                    i,
                                ));
                                assert(between(b0, p, dd, player, t));
                            }
                        }
                    }
                }
                true
            },
        }
    }

    /// True iff some empty cell admits a successful anchor search for
    /// `player` in any direction.
    pub fn has_move(&self, player: bool) -> (r: bool)
        requires
            self.wf(),
        ensures
            r == spec_has_move(self.board@, player),
    {
        let mut i: usize = 0;
        while i < 8
            invariant
                self.wf(),
                0 <= i <= 8,
                forall|t: (int, int)| in8(t) && t.0 < i ==> !#[trigger] play_legal(
                    self.board@,
                    t,
                    player,
                ),
            decreases 8 - i,
        {
            let mut jc: usize = 0;
            while jc < 8
                invariant
                    self.wf(),
                    0 <= i < 8,
                    0 <= jc <= 8,
                    forall|t: (int, int)| in8(t) && t.0 < i ==> !#[trigger] play_legal(
                        self.board@,
                        t,
                        player,
                    ),
                    forall|t: (int, int)|
                        in8(t) && t.0 == i && t.1 < jc ==> !#[trigger] play_legal(
                            self.board@,
                            t,
                            player,
                        ),
                decreases 8 - jc,
            {
                let c = Coord(i as i32, jc as i32);
                if matches!(self.at(c), None) {
                    let mut k: usize = 0;
                    while k < 8
                        invariant
                            self.wf(),
                            in8(pos(c)),
                            at8(self.board@, pos(c)) == Option::<bool>::None,
                            0 <= k <= 8,
                            forall|k2: int|
                                0 <= k2 < k ==> !has_anchor(
                                    self.board@,
                                    pos(c),
                                    #[trigger] spec_directions()[k2],
                                    player,
                                ),
                        decreases 8 - k,
                    {
                        let d = direction(k);
                        match self.find_anchor(c, d, player) {
                            Some(a) => {
                                proof {
                                    assert(spec_directions()[k as int].0 == d.0 as int);
                                    assert(spec_directions()[k as int].1 == d.1 as int);
                                    assert forall|i: int| #[trigger] step(
                                        pos(c),
                                        spec_directions()[k as int],
                                        i,
                                    ) == step(pos(c), pos(d), i) by {}
                                    let kx = choose|kx: int|
                                        #[trigger] ray_ok(self.board@, pos(c), pos(d), player, kx)
                                            && pos(a) == step(pos(c), pos(d), kx);
                                    assert(ray_ok(
                                        self.board@,
                                        pos(c),
                                        spec_directions()[k as int],
                                        player,
                                        kx,
                                    ));
                                    assert(has_anchor(
                                        self.board@,
                                        pos(c),
                                        spec_directions()[k as int],
                                        player,
                                    ));
                                    assert(play_legal(self.board@, pos(c), player));
                                }
                                return true;
                            },
                            None => {},
                        }
                        k = k + 1;
                    }
                    proof {
                        assert(!play_legal(self.board@, pos(c), player)) by {
                            if play_legal(self.board@, pos(c), player) {
                                let k2 = choose|k2: int|
                                    0 <= k2 < 8 && has_anchor(
                                        self.board@,
                                        pos(c),
                                        #[trigger] spec_directions()[k2],
                                        player,
                                    );
                            }
                        }
                    }
                } else {
                    proof {
                        assert(!play_legal(self.board@, pos(c), player));
                    }
                }
                jc = jc + 1;
                proof {
                    assert forall|t: (int, int)|
                        in8(t) && t.0 == i && t.1 < jc implies !#[trigger] play_legal(
                        self.board@,
                        t,
                        player,
                    ) by {
                        if t.1 == jc - 1 {
                            assert(t == pos(c));
                        }
                    }
                }
            }
            i = i + 1;
        }
        proof {
            if spec_has_move(self.board@, player) {
                let t = choose|t: (int, int)| in8(t) && play_legal(self.board@, t, player);
            }
        }
        false
    }

    /// Play at `coord` for the current player. A legal move (empty cell,
    /// at least one bracket) flips every bracketed disc, places the disc,
    /// and advances the turn: to the opponent if they have a move, else —
    /// if the mover has none either — the game ends; otherwise the mover
    /// keeps the turn (forced pass). An illegal move changes nothing.
    pub fn play(&mut self, coord: Coord) -> (r: bool)
        requires
            old(self).wf(),
            in8(pos(coord)),
        ensures
            final(self).wf(),
            r == play_legal(old(self).board@, pos(coord), old(self).player),
            old(self).game_over ==> !r,
            !r ==> final(self).board@ == old(self).board@ && final(self).player == old(
                self,
            ).player && final(self).game_over == old(self).game_over,
            r ==> (forall|t: (int, int)|
                in8(t) ==> #[trigger] at8(final(self).board@, t) == played_board(
                    old(self).board@,
                    pos(coord),
                    old(self).player,
                    t,
                )),
            r ==> final(self).player == (if spec_has_move(final(self).board@, !old(self).player) {
                !old(self).player
            } else {
                old(self).player
            }),
            r ==> final(self).game_over == (old(self).game_over || (!spec_has_move(
                final(self).board@,
                !old(self).player,
            ) && !spec_has_move(final(self).board@, old(self).player))),
    {
        let ghost b0 = old(self).board@;
        let ghost p = pos(coord);
        let player = self.player;
        if !matches!(self.at(coord), None) {
            proof {
                assert(!play_legal(b0, p, player));
            }
            return false;
        }
        let mut valid = false;
        let mut k: usize = 0;
        while k < 8
            invariant
                self.wf(),
                self.player == old(self).player,
                self.game_over == old(self).game_over,
                self.board@.len() == 64,
                b0 == old(self).board@,
                b0.len() == 64,
                p == pos(coord),
                in8(p),
                player == old(self).player,
                at8(b0, p) == Option::<bool>::None,
                0 <= k <= 8,
                valid == (exists|k2: int|
                    0 <= k2 < k && has_anchor(b0, p, #[trigger] spec_directions()[k2], player)),
                forall|t: (int, int)|
                    in8(t) ==> #[trigger] at8(self.board@, t) == (if exists|k2: int|
                        0 <= k2 < k && between(
                            b0,
                            p,
                            #[trigger] spec_directions()[k2],
                            player,
                            t,
                        ) {
                        Some(player)
                    } else {
                        at8(b0, t)
                    }),
            decreases 8 - k,
        {
            let d = direction(k);
            let ghost dd = pos(d);
            let ghost b_pre = self.board@;
            proof {
                assert forall|i: int|
                    1 <= i && in8(#[trigger] step(p, dd, i)) implies at8(b_pre, step(p, dd, i))
                    == at8(b0, step(p, dd, i)) by {
                    if at8(b_pre, step(p, dd, i)) != at8(b0, step(p, dd, i)) {
                        let k2 = choose|k2: int|
                            0 <= k2 < k && between(
                                b0,
                                p,
                                #[trigger] spec_directions()[k2],
                                player,
                                step(p, dd, i),
                            );
                        let (kx, ix) = choose|kx: int, ix: int|
                            ray_ok(b0, p, spec_directions()[k2], player, kx) && 1 <= ix < kx
                                && step(p, dd, i) == step(p, spec_directions()[k2], ix);
                        lemma_rays_disjoint(p, dd, spec_directions()[k2], i, ix);
                    }
                }
                lemma_ray_congruence(b_pre, b0, p, dd, player);
            }
            let captured = self.capture(coord, d);
            proof {
                if captured {
                    assert(has_anchor(b0, p, dd, player));
                    assert forall|t: (int, int)| in8(t) implies #[trigger] at8(self.board@, t)
                        == (if exists|k2: int|
                        0 <= k2 < k + 1 && between(
                            b0,
                            p,
                            #[trigger] spec_directions()[k2],
                            player,
                            t,
                        ) {
                        Some(player)
                    } else {
                        at8(b0, t)
                    }) by {
                        if between(b_pre, p, dd, player, t) {
                            assert(between(b0, p, dd, player, t));
                            assert(spec_directions()[k as int] == dd);
                            assert(0 <= k < k + 1 && between(
                                b0,
                                p,
                                spec_directions()[k as int],
                                player,
                                t,
                            ));
                        } else {
                            if exists|k2: int|
                                0 <= k2 < k + 1 && between(
                                    b0,
                                    p,
                                    #[trigger] spec_directions()[k2],
                                    player,
                                    t,
                                ) {
                                let k2 = choose|k2: int|
                                    0 <= k2 < k + 1 && between(
                                        b0,
                                        p,
                                        #[trigger] spec_directions()[k2],
                                        player,
                                        t,
                                    );
                                if k2 == k {
                                    assert(between(b0, p, dd, player, t));
                                    assert(between(b_pre, p, dd, player, t));
                                } else {
                                    assert(at8(b_pre, t) == Some(player));
                                }
                            }
                        }
                    }
                } else {
                    assert(!has_anchor(b0, p, dd, player));
                    assert forall|t: (int, int)| in8(t) implies #[trigger] at8(self.board@, t)
                        == (if exists|k2: int|
                        0 <= k2 < k + 1 && between(
                            b0,
                            p,
                            #[trigger] spec_directions()[k2],
                            player,
                            t,
                        ) {
                        Some(player)
                    } else {
                        at8(b0, t)
                    }) by {
                        if exists|k2: int|
                            0 <= k2 < k + 1 && between(
                                b0,
                                p,
                                #[trigger] spec_directions()[k2],
                                player,
                                t,
                            ) {
                            let k2 = choose|k2: int|
                                0 <= k2 < k + 1 && between(
                                    b0,
                                    p,
                                    #[trigger] spec_directions()[k2],
                                    player,
                                    t,
                                );
                            if k2 == k {
                                assert(between(b0, p, dd, player, t));
                                let (kx, ix) = choose|kx: int, ix: int|
                                    ray_ok(b0, p, dd, player, kx) && 1 <= ix < kx && t == step(
                                        p,
                                        dd,
                                        ix,
                                    );
                                assert(has_anchor(b0, p, dd, player));
                            } else {
                                assert(0 <= k2 < k && between(
                                    b0,
                                    p,
                                    spec_directions()[k2],
                                    player,
                                    t,
                                ));
                            }
                        }
                    }
                }
            }
            valid = valid || captured;
            k = k + 1;
        }
        if valid {
            proof {
                crate::game::lemma_row_major_bounds(p.0, p.1, 8, 8);
            }
            let ghost bmid = self.board@;
            self.board[(coord.0 as usize) * 8 + (coord.1 as usize)] = Some(player);
            proof {
                let bf = self.board@;
                assert forall|t: (int, int)| in8(t) implies #[trigger] at8(bf, t) == played_board(
                    b0,
                    p,
                    player,
                    t,
                ) by {
                    if t == p {
                    } else {
                        lemma_row_major_injective(t.0, t.1, p.0, p.1, 8);
                        assert(at8(bf, t) == at8(bmid, t));
                        if flips_to(b0, p, player, t) {
                            let k2 = choose|k2: int|
                                0 <= k2 < 8 && between(
                                    b0,
                                    p,
                                    #[trigger] spec_directions()[k2],
                                    player,
                                    t,
                                );
                        }
                    }
                }
                assert(play_legal(b0, p, player)) by {
                    let k2 = choose|k2: int|
                        0 <= k2 < 8 && has_anchor(b0, p, #[trigger] spec_directions()[k2], player);
                }
            }
            if self.has_move(!player) {
                self.player = !player;
            } else if !self.has_move(player) {
                self.game_over = true;
            }
            true
        } else {
            proof {
                assert forall|jj: int| 0 <= jj < 64 implies self.board@[jj] == b0[jj] by {
                    let t = (jj / 8, jj % 8);
                    assert(in8(t));
                    assert(t.0 * 8 + t.1 == jj);
                    assert(at8(self.board@, t) == at8(b0, t)) by {
                        if exists|k2: int|
                            0 <= k2 < 8 && between(
                                b0,
                                p,
                                #[trigger] spec_directions()[k2],
                                player,
                                t,
                            ) {
                            let k2 = choose|k2: int|
                                0 <= k2 < 8 && between(
                                    b0,
                                    p,
                                    #[trigger] spec_directions()[k2],
                                    player,
                                    t,
                                );
                            let (kx, ix) = choose|kx: int, ix: int|
                                ray_ok(b0, p, spec_directions()[k2], player, kx) && 1 <= ix < kx
                                    && t == step(p, spec_directions()[k2], ix);
                            assert(has_anchor(b0, p, spec_directions()[k2], player));
                        }
                    }
                }
                assert(self.board@ =~= b0);
                assert(!play_legal(b0, p, player)) by {
                    if play_legal(b0, p, player) {
                        let k2 = choose|k2: int|
                            0 <= k2 < 8 && has_anchor(
                                b0,
                                p,
                                #[trigger] spec_directions()[k2],
                                player,
                            );
                    }
                }
            }
            false
        }
    }
}

} // verus!

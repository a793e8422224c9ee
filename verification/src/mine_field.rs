//! The mine-field engine: a grid of cells that is lazily seeded with mines
//! on the first interaction, then mutated only by uncover operations.
//! Revealing floods across connected zero-valued cells; the chord operation
//! bulk-reveals a numbered cell's neighbors when the counts around it are
//! locally consistent.

use vstd::prelude::*;

use crate::counting::{
    count_matching, lemma_count_matching_bounds, lemma_count_matching_congruence,
    lemma_count_matching_lower, lemma_count_matching_push, lemma_count_matching_update,
    lemma_count_matching_zero,
};
use crate::game::{adjacent, lemma_adjacent_directions, lemma_row_major_bounds,
    lemma_row_major_injective, pos, spec_directions, direction, Coord};

verus! {

/// Whether a cell is still hidden, has been revealed, or blew up.
#[derive(Clone, Copy, PartialEq, Eq, Structural, Debug)]
pub enum State {
    Covered,
    Uncovered,
    Exploded,
}

/// What a cell holds: a mine, or the count of mines among its neighbors.
#[derive(Clone, Copy, PartialEq, Eq, Structural, Debug)]
pub enum CellValue {
    Mine,
    Number(u32),
}

/// One cell of the mine field.
#[derive(Clone, Copy, PartialEq, Eq, Structural, Debug)]
pub struct Cell {
    pub value: CellValue,
    pub state: State,
}

/// The cell every position starts from: a zero-valued covered cell.
pub open spec fn default_cell() -> Cell {
    Cell { value: CellValue::Number(0), state: State::Covered }
}

impl Default for Cell {
    fn default() -> (c: Cell)
        ensures
            c == default_cell(),
    {
        Cell { value: CellValue::Number(0), state: State::Covered }
    }
}

/// Is `p` a position of a `rows` x `cols` grid?
pub open spec fn in_grid(rows: int, cols: int, p: (int, int)) -> bool {
    0 <= p.0 < rows && 0 <= p.1 < cols
}

/// Row-major flat index of a position.
pub open spec fn gidx(cols: int, p: (int, int)) -> int {
    p.0 * cols + p.1
}

/// The cell a grid holds at a position.
pub open spec fn cell_at(g: Seq<Cell>, cols: int, p: (int, int)) -> Cell {
    g[gidx(cols, p)]
}

/// A revealed cell that holds no mine.
pub open spec fn pred_blank_uncovered() -> spec_fn(Cell) -> bool {
    |c: Cell| c.state == State::Uncovered && c.value != CellValue::Mine
}

/// A mine that has not been revealed: still covered, or blown up.
pub open spec fn pred_mine_not_uncovered() -> spec_fn(Cell) -> bool {
    |c: Cell| c.value == CellValue::Mine && c.state != State::Uncovered
}

/// A cell that blew up.
pub open spec fn pred_exploded() -> spec_fn(Cell) -> bool {
    |c: Cell| c.state == State::Exploded
}

/// A cell holding a mine.
pub open spec fn pred_mine() -> spec_fn(Cell) -> bool {
    |c: Cell| c.value == CellValue::Mine
}

/// A cell that holds no mine.
pub open spec fn pred_nonmine() -> spec_fn(Cell) -> bool {
    |c: Cell| c.value != CellValue::Mine
}

/// A cell that is still covered.
pub open spec fn pred_covered() -> spec_fn(Cell) -> bool {
    |c: Cell| c.state == State::Covered
}

/// A mine that has been uncovered (reachable only defensively).
pub open spec fn pred_uncovered_mine() -> spec_fn(Cell) -> bool {
    |c: Cell| c.state == State::Uncovered && c.value == CellValue::Mine
}

/// A flood-fill path through `g`: every cell on it is in the grid and
/// covered, consecutive cells are adjacent, and every cell but possibly
/// the last is zero-valued.
pub open spec fn reveal_path(g: Seq<Cell>, rows: int, cols: int, p: Seq<(int, int)>) -> bool {
    &&& p.len() >= 1
    &&& forall|i: int| 0 <= i < p.len() ==> in_grid(rows, cols, #[trigger] p[i])
    &&& forall|i: int|
        0 <= i < p.len() ==> cell_at(g, cols, #[trigger] p[i]).state == State::Covered
    &&& forall|i: int| 0 <= i < p.len() - 1 ==> adjacent(#[trigger] p[i], p[i + 1])
    &&& forall|i: int|
        0 <= i < p.len() - 1 ==> cell_at(g, cols, #[trigger] p[i]).value == CellValue::Number(0)
}

/// Does the flood fill seeded at the cells satisfying `starts` reach `t`?
/// Exactly the cells this holds of are uncovered by a reveal: the seeds
/// themselves (when covered), the connected region of covered zero-valued
/// cells around covered zero-valued seeds, and the one ring of covered
/// cells bordering that region.
pub open spec fn reaches(
    g: Seq<Cell>,
    rows: int,
    cols: int,
    starts: spec_fn((int, int)) -> bool,
    t: (int, int),
) -> bool {
    exists|p: Seq<(int, int)>|
        #[trigger] reveal_path(g, rows, cols, p) && starts(p[0]) && p.last() == t
}

/// The start set holding exactly the positions of `seeds`.
pub open spec fn starts_of(seeds: Seq<Coord>) -> spec_fn((int, int)) -> bool {
    |s: (int, int)| exists|i: int| 0 <= i < seeds.len() && pos(#[trigger] seeds[i]) == s
}

/// The start set holding exactly one position.
pub open spec fn start_at(c: Coord) -> spec_fn((int, int)) -> bool {
    |s: (int, int)| s == pos(c)
}

/// The start set holding every in-grid neighbor of `center`.
pub open spec fn starts_around(center: (int, int), rows: int, cols: int) -> spec_fn(
    (int, int),
) -> bool {
    |s: (int, int)| adjacent(center, s) && in_grid(rows, cols, s)
}

/// Is some still-pending queue entry (at or past `head`) at position `s`?
pub open spec fn in_pending(queue: Seq<Coord>, head: int, s: (int, int)) -> bool {
    exists|j: int| head <= j < queue.len() && pos(#[trigger] queue[j]) == s
}

/// A pending obligation at a position other than the popped one survives a
/// dequeue step and any number of pushes.
pub proof fn lemma_pending_step(
    q_prev: Seq<Coord>,
    q_cur: Seq<Coord>,
    h_prev: int,
    h_cur: int,
    s: (int, int),
)
    requires
        0 <= h_prev < q_prev.len(),
        h_cur == h_prev + 1,
        q_prev.len() <= q_cur.len(),
        forall|j: int| 0 <= j < q_prev.len() ==> q_cur[j] == #[trigger] q_prev[j],
        in_pending(q_prev, h_prev, s),
        s != pos(q_prev[h_prev]),
    ensures
        in_pending(q_cur, h_cur, s),
{
    let j = choose|j: int| h_prev <= j < q_prev.len() && pos(#[trigger] q_prev[j]) == s;
    assert(h_cur <= j < q_cur.len() && pos(q_cur[j]) == s);
}

/// One dequeue step of the reveal keeps the closure and seed obligations:
/// pointers at the popped cell are discharged by its now-not-covered
/// state, and every other pending pointer survives the head advancing and
/// the queue growing.
pub proof fn lemma_reveal_iteration(
    g0: Seq<Cell>,
    g_prev: Seq<Cell>,
    g_cur: Seq<Cell>,
    rows: int,
    cols: int,
    starts: spec_fn((int, int)) -> bool,
    q_prev: Seq<Coord>,
    q_cur: Seq<Coord>,
    h_prev: int,
    h_cur: int,
    cpos: (int, int),
)
    requires
        1 <= rows,
        1 <= cols,
        g0.len() == rows * cols,
        g_prev.len() == rows * cols,
        g_cur.len() == rows * cols,
        in_grid(rows, cols, cpos),
        0 <= h_prev < q_prev.len(),
        h_cur == h_prev + 1,
        q_prev.len() <= q_cur.len(),
        forall|j: int| 0 <= j < q_prev.len() ==> q_cur[j] == #[trigger] q_prev[j],
        pos(q_prev[h_prev]) == cpos,
        forall|t: (int, int)|
            in_grid(rows, cols, t) && t != cpos ==> #[trigger] cell_at(g_cur, cols, t) == cell_at(
                g_prev,
                cols,
                t,
            ),
        cell_at(g_cur, cols, cpos).state != State::Covered,
        cell_at(g_cur, cols, cpos).value == cell_at(g_prev, cols, cpos).value,
        cell_at(g_cur, cols, cpos).state == cell_at(g_prev, cols, cpos).state || (cell_at(
            g_prev,
            cols,
            cpos,
        ).state == State::Covered && cell_at(g_cur, cols, cpos).state == State::Uncovered),
        forall|t: (int, int)|
            in_grid(rows, cols, t) && (#[trigger] cell_at(g_prev, cols, t)).state
                == State::Uncovered && cell_at(g0, cols, t).state == State::Covered && cell_at(
                g0,
                cols,
                t,
            ).value == CellValue::Number(0) ==> (forall|q: (int, int)|
                adjacent(t, q) && in_grid(rows, cols, q) ==> (#[trigger] cell_at(
                    g_prev,
                    cols,
                    q,
                )).state != State::Covered || in_pending(q_prev, h_prev, q)),
        (cell_at(g_prev, cols, cpos).state == State::Covered && cell_at(g_cur, cols, cpos).state
            == State::Uncovered && cell_at(g0, cols, cpos).value == CellValue::Number(0)) ==> (
        forall|q: (int, int)|
            adjacent(cpos, q) && in_grid(rows, cols, q) ==> (#[trigger] cell_at(
                g_cur,
                cols,
                q,
            )).state != State::Covered || in_pending(q_cur, h_cur, q)),
        forall|s: (int, int)|
            #[trigger] starts(s) ==> in_grid(rows, cols, s) && (cell_at(g_prev, cols, s).state
                != State::Covered || in_pending(q_prev, h_prev, s)),
    ensures
        forall|t: (int, int)|
            in_grid(rows, cols, t) && (#[trigger] cell_at(g_cur, cols, t)).state
                == State::Uncovered && cell_at(g0, cols, t).state == State::Covered && cell_at(
                g0,
                cols,
                t,
            ).value == CellValue::Number(0) ==> (forall|q: (int, int)|
                adjacent(t, q) && in_grid(rows, cols, q) ==> (#[trigger] cell_at(
                    g_cur,
                    cols,
                    q,
                )).state != State::Covered || in_pending(q_cur, h_cur, q)),
        forall|s: (int, int)|
            #[trigger] starts(s) ==> in_grid(rows, cols, s) && (cell_at(g_cur, cols, s).state
                != State::Covered || in_pending(q_cur, h_cur, s)),
{
    assert forall|t: (int, int)|
        in_grid(rows, cols, t) && (#[trigger] cell_at(g_cur, cols, t)).state == State::Uncovered
            && cell_at(g0, cols, t).state == State::Covered && cell_at(g0, cols, t).value
            == CellValue::Number(0) implies (forall|q: (int, int)|
        adjacent(t, q) && in_grid(rows, cols, q) ==> (#[trigger] cell_at(g_cur, cols, q)).state
            != State::Covered || in_pending(q_cur, h_cur, q)) by {
        if t == cpos && cell_at(g_prev, cols, cpos).state == State::Covered {
            assert(cell_at(g_cur, cols, cpos).state == State::Uncovered);
        } else {
            assert(cell_at(g_prev, cols, t).state == State::Uncovered);
            assert forall|q: (int, int)| adjacent(t, q) && in_grid(rows, cols, q) implies (
            #[trigger] cell_at(g_cur, cols, q)).state != State::Covered || in_pending(
                q_cur,
                h_cur,
                q,
            ) by {
                if cell_at(g_prev, cols, q).state == State::Covered {
                    assert(in_pending(q_prev, h_prev, q));
                    if q == cpos {
                        assert(cell_at(g_cur, cols, q).state != State::Covered);
                    } else {
                        lemma_pending_step(q_prev, q_cur, h_prev, h_cur, q);
                    }
                } else {
                    if q != cpos {
                        assert(cell_at(g_cur, cols, q) == cell_at(g_prev, cols, q));
                    }
                }
            }
        }
    }
    assert forall|s: (int, int)| #[trigger] starts(s) implies in_grid(rows, cols, s) && (cell_at(
        g_cur,
        cols,
        s,
    ).state != State::Covered || in_pending(q_cur, h_cur, s)) by {
        if cell_at(g_prev, cols, s).state == State::Covered && s != cpos {
            assert(in_pending(q_prev, h_prev, s));
            lemma_pending_step(q_prev, q_cur, h_prev, h_cur, s);
        }
    }
}

/// A flood-fill path to a covered zero-valued cell extends by one covered
/// adjacent cell.
pub proof fn lemma_reaches_extend(
    g0: Seq<Cell>,
    rows: int,
    cols: int,
    starts: spec_fn((int, int)) -> bool,
    cpos: (int, int),
    qpos: (int, int),
)
    requires
        reaches(g0, rows, cols, starts, cpos),
        cell_at(g0, cols, cpos).value == CellValue::Number(0),
        cell_at(g0, cols, cpos).state == State::Covered,
        adjacent(cpos, qpos),
        in_grid(rows, cols, qpos),
        cell_at(g0, cols, qpos).state == State::Covered,
    ensures
        reaches(g0, rows, cols, starts, qpos),
{
    let pth = choose|pth: Seq<(int, int)>|
        #[trigger] reveal_path(g0, rows, cols, pth) && starts(pth[0]) && pth.last() == cpos;
    let pth2 = pth.push(qpos);
    assert(reveal_path(g0, rows, cols, pth2)) by {
        assert(forall|ii: int| 0 <= ii < pth.len() ==> pth2[ii] == #[trigger] pth[ii]);
        assert(pth2.last() == qpos);
        assert(pth2[pth2.len() - 2] == cpos);
    };
    assert(pth2[0] == pth[0]);
}

/// When every one of the 8 neighbor offsets of `cpos` is discharged, the
/// whole adjacent ring is.
pub proof fn lemma_ring_closed(
    g: Seq<Cell>,
    rows: int,
    cols: int,
    queue: Seq<Coord>,
    head: int,
    cpos: (int, int),
)
    requires
        forall|k2: int|
            0 <= k2 < 8 ==> {
                let s = (
                    cpos.0 + #[trigger] spec_directions()[k2].0,
                    cpos.1 + spec_directions()[k2].1,
                );
                !in_grid(rows, cols, s) || cell_at(g, cols, s).state != State::Covered
                    || in_pending(queue, head, s)
            },
    ensures
        forall|q2: (int, int)|
            adjacent(cpos, q2) && in_grid(rows, cols, q2) ==> (#[trigger] cell_at(
                g,
                cols,
                q2,
            )).state != State::Covered || in_pending(queue, head, q2),
{
    assert forall|q2: (int, int)| adjacent(cpos, q2) && in_grid(rows, cols, q2) implies (
    #[trigger] cell_at(g, cols, q2)).state != State::Covered || in_pending(queue, head, q2) by {
        lemma_adjacent_directions(cpos, q2);
        let k2 = choose|k2: int|
            0 <= k2 < 8 && q2 == (
                cpos.0 + #[trigger] spec_directions()[k2].0,
                cpos.1 + spec_directions()[k2].1,
            );
    }
}

/// Pending obligations survive a push at the queue's tail.
pub proof fn lemma_pending_push(q_prev: Seq<Coord>, q_cur: Seq<Coord>, head: int)
    requires
        q_prev.len() <= q_cur.len(),
        forall|j: int| 0 <= j < q_prev.len() ==> q_cur[j] == #[trigger] q_prev[j],
    ensures
        forall|s: (int, int)|
            #[trigger] in_pending(q_prev, head, s) && 0 <= head ==> in_pending(q_cur, head, s),
{
    assert forall|s: (int, int)| #[trigger] in_pending(q_prev, head, s) && 0 <= head implies
        in_pending(q_cur, head, s) by {
        let j = choose|j: int| head <= j < q_prev.len() && pos(#[trigger] q_prev[j]) == s;
        assert(head <= j < q_cur.len() && pos(q_cur[j]) == s);
    }
}

/// Uncovering one covered cell moves each running count by exactly its
/// contribution: one more uncovered blank or one fewer unresolved mine,
/// one fewer covered cell, explosions and the mine layout untouched.
pub proof fn lemma_uncover_counts(g: Seq<Cell>, i: int)
    requires
        0 <= i < g.len(),
        g[i].state == State::Covered,
    ensures
        ({
            let c2 = Cell { value: g[i].value, state: State::Uncovered };
            let g2 = g.update(i, c2);
            &&& count_matching(g2, pred_blank_uncovered()) == count_matching(
                g,
                pred_blank_uncovered(),
            ) + if g[i].value != CellValue::Mine {
                1int
            } else {
                0int
            }
            &&& count_matching(g2, pred_mine_not_uncovered()) == count_matching(
                g,
                pred_mine_not_uncovered(),
            ) - (if g[i].value == CellValue::Mine {
                1int
            } else {
                0int
            })
            &&& count_matching(g2, pred_exploded()) == count_matching(g, pred_exploded())
            &&& count_matching(g2, pred_covered()) == count_matching(g, pred_covered()) - 1
            &&& count_matching(g2, pred_mine()) == count_matching(g, pred_mine())
            &&& g[i].value == CellValue::Mine ==> count_matching(g, pred_mine_not_uncovered())
                >= 1
            &&& g[i].value != CellValue::Mine ==> 0 <= count_matching(g, pred_blank_uncovered())
                < g.len()
        }),
{
    let c2 = Cell { value: g[i].value, state: State::Uncovered };
    lemma_count_matching_update(g, pred_blank_uncovered(), i, c2);
    lemma_count_matching_update(g, pred_mine_not_uncovered(), i, c2);
    lemma_count_matching_update(g, pred_exploded(), i, c2);
    lemma_count_matching_update(g, pred_covered(), i, c2);
    lemma_count_matching_update(g, pred_mine(), i, c2);
    lemma_count_matching_bounds(g, pred_blank_uncovered());
    lemma_count_matching_bounds(g.update(i, c2), pred_blank_uncovered());
    if g[i].value == CellValue::Mine {
        lemma_count_matching_lower(g, pred_mine_not_uncovered(), i);
    }
    if g[i].value != CellValue::Mine {
        assert(count_matching(g.update(i, c2), pred_blank_uncovered()) <= g.len());
    }
}

/// A flood-fill path whose every cell — the last included — is a
/// covered zero-valued cell.
pub open spec fn zero_path(g: Seq<Cell>, rows: int, cols: int, p: Seq<(int, int)>) -> bool {
    &&& reveal_path(g, rows, cols, p)
    &&& forall|i: int|
        0 <= i < p.len() ==> cell_at(g, cols, #[trigger] p[i]).value == CellValue::Number(0)
}

/// Is `b` in the connected region of covered zero-valued cells around
/// `a`?
pub open spec fn zero_connected(
    g: Seq<Cell>,
    rows: int,
    cols: int,
    a: (int, int),
    b: (int, int),
) -> bool {
    exists|p: Seq<(int, int)>|
        #[trigger] zero_path(g, rows, cols, p) && p[0] == a && p.last() == b
}

/// The flood-fill closure of a covered zero-valued seed, in region form:
/// the reveal reaches exactly the seed's maximal connected region of
/// covered zero-valued cells together with the one ring of covered
/// cells bordering that region, and nothing beyond.
pub proof fn lemma_flood_fill_region_and_ring(
    g: Seq<Cell>,
    rows: int,
    cols: int,
    c: Coord,
    t: (int, int),
)
    requires
        in_grid(rows, cols, pos(c)),
        cell_at(g, cols, pos(c)).state == State::Covered,
        cell_at(g, cols, pos(c)).value == CellValue::Number(0),
    ensures
        reaches(g, rows, cols, start_at(c), t) <==> (in_grid(rows, cols, t) && cell_at(
            g,
            cols,
            t,
        ).state == State::Covered && (zero_connected(g, rows, cols, pos(c), t) || (exists|
            u: (int, int),
        |
            #[trigger] zero_connected(g, rows, cols, pos(c), u) && adjacent(u, t)))),
{
    if reaches(g, rows, cols, start_at(c), t) {
        let p = choose|p: Seq<(int, int)>|
            #[trigger] reveal_path(g, rows, cols, p) && start_at(c)(p[0]) && p.last() == t;
        assert(in_grid(rows, cols, t));
        assert(cell_at(g, cols, t).state == State::Covered);
        if p.len() == 1 {
            let zp = seq![pos(c)];
            assert(zero_path(g, rows, cols, zp)) by {
                assert(reveal_path(g, rows, cols, zp));
            }
            assert(zp[0] == pos(c) && zp.last() == t);
            assert(zero_connected(g, rows, cols, pos(c), t));
        } else {
            let q = p.drop_last();
            assert(zero_path(g, rows, cols, q)) by {
                assert(forall|i: int| 0 <= i < q.len() ==> q[i] == #[trigger] p[i]);
                assert(reveal_path(g, rows, cols, q));
            }
            let u = q.last();
            assert(q[0] == pos(c));
            assert(zero_connected(g, rows, cols, pos(c), u));
            assert(adjacent(u, t)) by {
                assert(u == p[p.len() - 2]);
            }
        }
    }
    if in_grid(rows, cols, t) && cell_at(g, cols, t).state == State::Covered {
        if zero_connected(g, rows, cols, pos(c), t) {
            let zp = choose|zp: Seq<(int, int)>|
                #[trigger] zero_path(g, rows, cols, zp) && zp[0] == pos(c) && zp.last() == t;
            assert(reveal_path(g, rows, cols, zp) && start_at(c)(zp[0]) && zp.last() == t);
            assert(reaches(g, rows, cols, start_at(c), t));
        } else if exists|u: (int, int)|
            #[trigger] zero_connected(g, rows, cols, pos(c), u) && adjacent(u, t) {
            let u = choose|u: (int, int)|
                #[trigger] zero_connected(g, rows, cols, pos(c), u) && adjacent(u, t);
            let zp = choose|zp: Seq<(int, int)>|
                #[trigger] zero_path(g, rows, cols, zp) && zp[0] == pos(c) && zp.last() == u;
            let p2 = zp.push(t);
            assert(reveal_path(g, rows, cols, p2)) by {
                assert(forall|i: int| 0 <= i < zp.len() ==> p2[i] == #[trigger] zp[i]);
                assert(p2.last() == t);
                assert(p2[p2.len() - 2] == u);
            }
            assert(start_at(c)(p2[0]) && p2.last() == t);
            assert(reaches(g, rows, cols, start_at(c), t));
        }
    }
}

/// A covered seed is always among what a reveal uncovers: the one-cell
/// path reaches it.
pub proof fn lemma_seed_reached(
    g: Seq<Cell>,
    rows: int,
    cols: int,
    starts: spec_fn((int, int)) -> bool,
    s: (int, int),
)
    requires
        starts(s),
        in_grid(rows, cols, s),
        cell_at(g, cols, s).state == State::Covered,
    ensures
        reaches(g, rows, cols, starts, s),
{
    let pth = seq![s];
    assert(reveal_path(g, rows, cols, pth));
    assert(starts(pth[0]) && pth.last() == s);
}

/// Every covered in-grid neighbor of a chorded cell is revealed by the
/// chord: it is itself a seed of the reveal around that cell.
pub proof fn lemma_chord_reveals_covered_neighbors(
    g: Seq<Cell>,
    rows: int,
    cols: int,
    center: (int, int),
    q: (int, int),
)
    requires
        adjacent(center, q),
        in_grid(rows, cols, q),
        cell_at(g, cols, q).state == State::Covered,
    ensures
        reaches(g, rows, cols, starts_around(center, rows, cols), q),
{
    lemma_seed_reached(g, rows, cols, starts_around(center, rows, cols), q);
}

/// Reachability only depends on the start set's extension.
pub proof fn lemma_reaches_congruence(
    g: Seq<Cell>,
    rows: int,
    cols: int,
    s1: spec_fn((int, int)) -> bool,
    s2: spec_fn((int, int)) -> bool,
    t: (int, int),
)
    requires
        forall|s: (int, int)| #[trigger] s1(s) == s2(s),
        reaches(g, rows, cols, s1, t),
    ensures
        reaches(g, rows, cols, s2, t),
{
    let p = choose|p: Seq<(int, int)>|
        #[trigger] reveal_path(g, rows, cols, p) && s1(p[0]) && p.last() == t;
    assert(reveal_path(g, rows, cols, p) && s2(p[0]) && p.last() == t);
}

/// After a reveal has drained its queue, every reachable cell is
/// uncovered: by induction over the path, each zero-valued newly
/// uncovered cell has no covered neighbor left, so the reveal's closure
/// argument carries to the path's end.
pub proof fn lemma_path_uncovered(
    g0: Seq<Cell>,
    g: Seq<Cell>,
    rows: int,
    cols: int,
    starts: spec_fn((int, int)) -> bool,
    p: Seq<(int, int)>,
)
    requires
        1 <= rows,
        1 <= cols,
        g0.len() == rows * cols,
        g.len() == rows * cols,
        forall|i: int| 0 <= i < g.len() ==> (#[trigger] g[i]).value == g0[i].value,
        forall|t: (int, int)|
            in_grid(rows, cols, t) ==> ((#[trigger] cell_at(g, cols, t)).state == cell_at(
                g0,
                cols,
                t,
            ).state || (cell_at(g0, cols, t).state == State::Covered && cell_at(g, cols, t).state
                == State::Uncovered)),
        forall|t: (int, int)|
            in_grid(rows, cols, t) && (#[trigger] cell_at(g, cols, t)).state == State::Uncovered
                && cell_at(g0, cols, t).state == State::Covered && cell_at(g0, cols, t).value
                == CellValue::Number(0) ==> (forall|q: (int, int)|
                adjacent(t, q) && in_grid(rows, cols, q) ==> (#[trigger] cell_at(
                    g,
                    cols,
                    q,
                )).state != State::Covered),
        forall|s: (int, int)|
            #[trigger] starts(s) && in_grid(rows, cols, s) ==> cell_at(g, cols, s).state
                != State::Covered,
        reveal_path(g0, rows, cols, p),
        starts(p[0]),
    ensures
        cell_at(g, cols, p.last()).state == State::Uncovered,
    decreases p.len(),
{
    if p.len() == 1 {
        let t = p[0];
        assert(in_grid(rows, cols, t));
        assert(cell_at(g0, cols, t).state == State::Covered);
        assert(cell_at(g, cols, t).state != State::Covered);
    } else {
        let q = p.drop_last();
        assert(reveal_path(g0, rows, cols, q)) by {
            assert(forall|i: int| 0 <= i < q.len() ==> q[i] == #[trigger] p[i]);
        }
        lemma_path_uncovered(g0, g, rows, cols, starts, q);
        let u = p[p.len() - 2];
        let t = p.last();
        assert(q.last() == u);
        assert(cell_at(g, cols, u).state == State::Uncovered);
        assert(cell_at(g0, cols, u).state == State::Covered);
        assert(cell_at(g0, cols, u).value == CellValue::Number(0));
        assert(adjacent(u, t));
        assert(cell_at(g, cols, t).state != State::Covered);
        assert(cell_at(g0, cols, t).state == State::Covered);
    }
}

/// How many of the first `k` Moore offsets of `p` land in the grid on a
/// cell satisfying `f`.
pub open spec fn nbr_count_upto(
    g: Seq<Cell>,
    rows: int,
    cols: int,
    p: (int, int),
    f: spec_fn(Cell) -> bool,
    k: int,
) -> int
    decreases k,
{
    if k <= 0 {
        0
    } else {
        nbr_count_upto(g, rows, cols, p, f, k - 1) + {
            let q = (p.0 + spec_directions()[k - 1].0, p.1 + spec_directions()[k - 1].1);
            if in_grid(rows, cols, q) && f(cell_at(g, cols, q)) {
                1int
            } else {
                0int
            }
        }
    }
}

/// How many in-grid neighbors of `p` satisfy `f`.
pub open spec fn nbr_count(
    g: Seq<Cell>,
    rows: int,
    cols: int,
    p: (int, int),
    f: spec_fn(Cell) -> bool,
) -> int {
    nbr_count_upto(g, rows, cols, p, f, 8)
}

/// How many in-grid neighbors of `p` hold a mine.
pub open spec fn mine_neighbors(g: Seq<Cell>, rows: int, cols: int, p: (int, int)) -> int {
    nbr_count(g, rows, cols, p, pred_mine())
}

pub proof fn lemma_nbr_count_upto_bounds(
    g: Seq<Cell>,
    rows: int,
    cols: int,
    p: (int, int),
    f: spec_fn(Cell) -> bool,
    k: int,
)
    ensures
        0 <= nbr_count_upto(g, rows, cols, p, f, k) <= if k <= 0 {
            0int
        } else {
            k
        },
    decreases k,
{
    if k > 0 {
        lemma_nbr_count_upto_bounds(g, rows, cols, p, f, k - 1);
    }
}

/// Neighbor counts agree between two grids whose cells `f` cannot tell
/// apart anywhere in the grid.
pub proof fn lemma_nbr_count_upto_congruence(
    g1: Seq<Cell>,
    g2: Seq<Cell>,
    rows: int,
    cols: int,
    p: (int, int),
    f: spec_fn(Cell) -> bool,
    k: int,
)
    requires
        forall|q: (int, int)|
            in_grid(rows, cols, q) ==> f(#[trigger] cell_at(g1, cols, q)) == f(
                cell_at(g2, cols, q),
            ),
    ensures
        nbr_count_upto(g1, rows, cols, p, f, k) == nbr_count_upto(g2, rows, cols, p, f, k),
    decreases k,
{
    if k > 0 {
        lemma_nbr_count_upto_congruence(g1, g2, rows, cols, p, f, k - 1);
    }
}

/// Every non-mine cell's number equals the count of mines among its
/// in-grid neighbors.
pub open spec fn numbering_ok(g: Seq<Cell>, rows: int, cols: int) -> bool {
    forall|p: (int, int)|
        in_grid(rows, cols, p) && (#[trigger] cell_at(g, cols, p)).value != CellValue::Mine
            ==> cell_at(g, cols, p).value == CellValue::Number(
            mine_neighbors(g, rows, cols, p) as u32,
        )
}

/// Numbering only reads cell values, so it carries over to any grid with
/// the same values.
pub proof fn lemma_numbering_values(g1: Seq<Cell>, g2: Seq<Cell>, rows: int, cols: int)
    requires
        1 <= rows,
        1 <= cols,
        g1.len() == rows * cols,
        g2.len() == rows * cols,
        forall|i: int| 0 <= i < g1.len() ==> (#[trigger] g1[i]).value == g2[i].value,
        numbering_ok(g2, rows, cols),
    ensures
        numbering_ok(g1, rows, cols),
{
    assert forall|p: (int, int)|
        in_grid(rows, cols, p) && (#[trigger] cell_at(g1, cols, p)).value
            != CellValue::Mine implies cell_at(g1, cols, p).value == CellValue::Number(
        mine_neighbors(g1, rows, cols, p) as u32,
    ) by {
        lemma_row_major_bounds(p.0, p.1, rows, cols);
        assert forall|q: (int, int)| in_grid(rows, cols, q) implies pred_mine()(
            #[trigger] cell_at(g1, cols, q),
        ) == pred_mine()(cell_at(g2, cols, q)) by {
            lemma_row_major_bounds(q.0, q.1, rows, cols);
        }
        lemma_nbr_count_upto_congruence(g1, g2, rows, cols, p, pred_mine(), 8);
    }
}

/// With at least two columns and the cell count bounded, each dimension
/// fits comfortably below `i32::MAX`.
pub proof fn lemma_dims_fit(rows: int, cols: int)
    requires
        2 <= rows,
        2 <= cols,
        rows * cols <= 0x7FFF_FFFF,
    ensures
        rows <= 0x3FFF_FFFF,
        cols <= 0x3FFF_FFFF,
{
    assert(rows * 2 <= rows * cols && cols * 2 <= rows * cols) by (nonlinear_arith)
        requires
            2 <= rows,
            2 <= cols,
    ;
}

/// Running statistics across the field; win/loss is derived from these
/// rather than stored.
pub struct MineFieldStats {
    pub uncovered_blank: usize,
    pub covered_mine: usize,
    pub exploded: usize,
}

/// The mine field: dimensions, the mine budget, the backing cell grid and
/// its running statistics. The grid is seeded with mines at most once, by
/// the first interaction.
pub struct MineField {
    pub initialized: bool,
    pub field: Vec<Cell>,
    pub rows: usize,
    pub columns: usize,
    pub mines: usize,
    pub stats: MineFieldStats,
}

impl MineField {
    /// The grid's shape is consistent: clamped dimensions, a mine budget
    /// below the cell count, a backing vector of the right length, and a
    /// cell count small enough for `i32` coordinates.
    pub open spec fn dims_ok(self) -> bool {
        &&& 2 <= self.rows
        &&& 2 <= self.columns
        &&& 1 <= self.mines < self.rows * self.columns
        &&& self.rows * self.columns <= 0x7FFF_FFFF
        &&& self.field@.len() == self.rows * self.columns
    }

    /// The internal invariant every operation preserves: clamped
    /// dimensions, a mine budget below the cell count, statistics that
    /// count exactly what the grid shows, and — once initialized —
    /// exactly `mines` mines and correct neighbor numbering.
    pub open spec fn wf(self) -> bool {
        &&& self.dims_ok()
        &&& self.stats.uncovered_blank == count_matching(self.field@, pred_blank_uncovered())
        &&& self.stats.exploded == count_matching(self.field@, pred_exploded())
        &&& forall|i: int|
            0 <= i < self.field@.len() && (#[trigger] self.field@[i]).state == State::Exploded
                ==> self.field@[i].value == CellValue::Mine
        &&& if self.initialized {
            &&& self.stats.covered_mine == count_matching(self.field@, pred_mine_not_uncovered())
            &&& count_matching(self.field@, pred_mine()) == self.mines
            &&& numbering_ok(self.field@, self.rows as int, self.columns as int)
        } else {
            &&& self.stats.covered_mine == self.mines
            &&& forall|i: int| 0 <= i < self.field@.len() ==> #[trigger] self.field@[i] == default_cell()
        }
    }

    /// Is `coord` a position of this field?
    pub open spec fn spec_in_grid(self, coord: Coord) -> bool {
        in_grid(self.rows as int, self.columns as int, pos(coord))
    }

    /// What `new` clamps a requested dimension to.
    pub open spec fn clamped_dim(n: usize) -> int {
        if n < 2 {
            2int
        } else {
            n as int
        }
    }

    /// Build an uninitialized field. Dimensions are clamped to at least 2
    /// each and the mine count to `[1, rows * columns - 1]`; the grid
    /// starts with every cell covered and zero-valued.
    pub fn new(rows: usize, columns: usize, mines: usize) -> (r: MineField)
        requires
            Self::clamped_dim(rows) * Self::clamped_dim(columns) <= 0x7FFF_FFFF,
        ensures
            r.wf(),
            !r.initialized,
            r.rows == Self::clamped_dim(rows),
            r.columns == Self::clamped_dim(columns),
            r.mines == if mines < 1 {
                1int
            } else if mines > Self::clamped_dim(rows) * Self::clamped_dim(columns) - 1 {
                Self::clamped_dim(rows) * Self::clamped_dim(columns) - 1
            } else {
                mines as int
            },
            r.stats.uncovered_blank == 0,
            r.stats.covered_mine == r.mines,
            r.stats.exploded == 0,
    {
        let rows = if rows < 2 {
            2
        } else {
            rows
        };
        let columns = if columns < 2 {
            2
        } else {
            columns
        };
        proof {
            assert(rows * columns >= 4) by (nonlinear_arith)
                requires
                    rows >= 2,
                    columns >= 2,
            ;
        }
        let total = rows * columns;
        let mines = if mines < 1 {
            1
        } else if mines > total - 1 {
            total - 1
        } else {
            mines
        };
        let mut field: Vec<Cell> = Vec::new();
        let mut i: usize = 0;
        while i < total
            invariant
                0 <= i <= total,
                field@.len() == i,
                forall|j: int| 0 <= j < i ==> #[trigger] field@[j] == default_cell(),
                count_matching(field@, pred_blank_uncovered()) == 0,
                count_matching(field@, pred_exploded()) == 0,
            decreases total - i,
        {
            proof {
                lemma_count_matching_push(field@, pred_blank_uncovered(), default_cell());
                lemma_count_matching_push(field@, pred_exploded(), default_cell());
            }
            field.push(Cell::default());
            i = i + 1;
        }
        MineField {
            initialized: false,
            field,
            rows,
            columns,
            mines,
            stats: MineFieldStats { uncovered_blank: 0, covered_mine: mines, exploded: 0 },
        }
    }

    /// Has the grid been seeded with mines yet?
    pub fn is_initialized(&self) -> (r: bool)
        ensures
            r == self.initialized,
    {
        self.initialized
    }

    pub fn get_rows(&self) -> (r: usize)
        ensures
            r == self.rows,
    {
        self.rows
    }

    pub fn get_columns(&self) -> (r: usize)
        ensures
            r == self.columns,
    {
        self.columns
    }

    pub fn get_mines(&self) -> (r: usize)
        ensures
            r == self.mines,
    {
        self.mines
    }

    pub fn get_stats(&self) -> (r: &MineFieldStats)
        ensures
            *r == self.stats,
    {
        &self.stats
    }

    /// Is `coord` a position of this field's grid?
    pub fn in_field(&self, coord: Coord) -> (r: bool)
        ensures
            r == self.spec_in_grid(coord),
    {
        coord.0 >= 0 && (coord.0 as usize) < self.rows && coord.1 >= 0 && (coord.1 as usize)
            < self.columns
    }

    /// Flat index of an in-bounds coordinate.
    fn get_index(&self, coord: Coord) -> (i: usize)
        requires
            self.dims_ok(),
            self.spec_in_grid(coord),
        ensures
            i == gidx(self.columns as int, pos(coord)),
            i < self.field@.len(),
    {
        proof {
            lemma_row_major_bounds(
                coord.0 as int,
                coord.1 as int,
                self.rows as int,
                self.columns as int,
            );
        }
        (coord.0 as usize) * self.columns + (coord.1 as usize)
    }

    /// The cell at an in-bounds coordinate.
    pub fn get(&self, coord: Coord) -> (c: &Cell)
        requires
            self.dims_ok(),
            self.spec_in_grid(coord),
        ensures
            *c == cell_at(self.field@, self.columns as int, pos(coord)),
    {
        let i = self.get_index(coord);
        &self.field[i]
    }

    /// One row of the grid, left to right.
    pub fn iter_row(&self, row: usize) -> (v: Vec<Cell>)
        requires
            self.dims_ok(),
            row < self.rows,
        ensures
            v@.len() == self.columns,
            forall|c: int|
                0 <= c < self.columns ==> #[trigger] v@[c] == cell_at(
                    self.field@,
                    self.columns as int,
                    (row as int, c),
                ),
    {
        let mut v: Vec<Cell> = Vec::new();
        let mut c: usize = 0;
        while c < self.columns
            invariant
                self.dims_ok(),
                row < self.rows,
                0 <= c <= self.columns,
                v@.len() == c,
                forall|j: int|
                    0 <= j < c ==> #[trigger] v@[j] == cell_at(
                        self.field@,
                        self.columns as int,
                        (row as int, j),
                    ),
            decreases self.columns - c,
        {
            proof {
                lemma_dims_fit(self.rows as int, self.columns as int);
            }
            let cell = *self.get(Coord(row as i32, c as i32));
            v.push(cell);
            c = c + 1;
        }
        v
    }

    /// Seed the grid from a sample of distinct cell indices drawn from the
    /// grid minus one avoided cell: each sampled index is shifted past the
    /// avoided cell and marked as a mine, then every non-mine cell is
    /// numbered with its mine-neighbor count. Runs at most once per field.
    pub fn place_mines(&mut self, sample: &Vec<usize>, avoid: Coord)
        requires
            old(self).wf(),
            !old(self).initialized,
            old(self).spec_in_grid(avoid),
            sample@.len() == old(self).mines,
            forall|i: int|
                0 <= i < sample@.len() ==> #[trigger] sample@[i] < old(self).rows * old(
                    self,
                ).columns - 1,
            forall|i: int, j: int| 0 <= i < j < sample@.len() ==> sample@[i] != sample@[j],
        ensures
            final(self).wf(),
            final(self).initialized,
            final(self).rows == old(self).rows,
            final(self).columns == old(self).columns,
            final(self).mines == old(self).mines,
            final(self).stats.uncovered_blank == 0,
            final(self).stats.covered_mine == old(self).mines,
            final(self).stats.exploded == 0,
            forall|j: int|
                0 <= j < final(self).field@.len() ==> (#[trigger] final(self).field@[j]).state
                    == State::Covered,
            forall|j: int|
                0 <= j < final(self).field@.len() ==> ((#[trigger] final(self).field@[j]).value
                    == CellValue::Mine <==> (exists|i: int|
                    0 <= i < sample@.len() && #[trigger] shifted(
                        sample@[i] as int,
                        gidx(old(self).columns as int, pos(avoid)),
                    ) == j)),
            cell_at(final(self).field@, final(self).columns as int, pos(avoid)).value
                != CellValue::Mine,
            numbering_ok(final(self).field@, final(self).rows as int, final(self).columns as int),
    {
        let avoid_index = self.get_index(avoid);
        let ghost a = avoid_index as int;
        let rows = self.rows;
        let columns = self.columns;
        let total = rows * columns;
        let ghost orig = *self;
        proof {
            lemma_count_matching_zero(self.field@, pred_mine());
            lemma_count_matching_zero(self.field@, pred_blank_uncovered());
            lemma_count_matching_zero(self.field@, pred_exploded());
        }

        // Mark one mine per sampled index, stepping each index over the
        // avoided cell so that cell can never hold a mine.
        let mut k: usize = 0;
        while k < sample.len()
            invariant
                self.dims_ok(),
                !self.initialized,
                self.rows == orig.rows,
                self.columns == orig.columns,
                self.mines == orig.mines,
                self.stats == orig.stats,
                orig.wf(),
                rows == self.rows,
                columns == self.columns,
                total == rows * columns,
                0 <= k <= sample@.len(),
                sample@.len() == self.mines,
                a == gidx(columns as int, pos(avoid)),
                a == avoid_index as int,
                0 <= a < total,
                forall|i: int| 0 <= i < sample@.len() ==> #[trigger] sample@[i] < total - 1,
                forall|i: int, j: int| 0 <= i < j < sample@.len() ==> sample@[i] != sample@[j],
                self.field@.len() == total,
                forall|j: int|
                    0 <= j < self.field@.len() ==> (#[trigger] self.field@[j]).state
                        == State::Covered,
                forall|j: int|
                    0 <= j < self.field@.len() && (#[trigger] self.field@[j]).value
                        != CellValue::Mine ==> self.field@[j] == default_cell(),
                forall|j: int|
                    0 <= j < self.field@.len() ==> ((#[trigger] self.field@[j]).value
                        == CellValue::Mine <==> (exists|i: int|
                        0 <= i < k && #[trigger] shifted(sample@[i] as int, a) == j)),
                count_matching(self.field@, pred_mine()) == k,
                count_matching(self.field@, pred_blank_uncovered()) == 0,
                count_matching(self.field@, pred_exploded()) == 0,
            decreases sample@.len() - k,
        {
            let mut i = sample[k];
            if i >= avoid_index {
                i = i + 1;
            }
            assert(i == shifted(sample@[k as int] as int, a));
            assert(i < total);
            assert(self.field@[i as int].value != CellValue::Mine) by {
                if self.field@[i as int].value == CellValue::Mine {
                    let i0 = choose|i0: int|
                        0 <= i0 < k && #[trigger] shifted(sample@[i0] as int, a) == i;
                    assert(sample@[i0] != sample@[k as int]);
                }
            }
            proof {
                lemma_count_matching_update(
                    self.field@,
                    pred_mine(),
                    i as int,
                    Cell { value: CellValue::Mine, state: State::Covered },
                );
                lemma_count_matching_update(
                    self.field@,
                    pred_blank_uncovered(),
                    i as int,
                    Cell { value: CellValue::Mine, state: State::Covered },
                );
                lemma_count_matching_update(
                    self.field@,
                    pred_exploded(),
                    i as int,
                    Cell { value: CellValue::Mine, state: State::Covered },
                );
            }
            self.field[i] = Cell { value: CellValue::Mine, state: State::Covered };
            k = k + 1;
            proof {
                assert forall|j: int|
                    0 <= j < self.field@.len() implies ((#[trigger] self.field@[j]).value
                    == CellValue::Mine <==> (exists|i0: int|
                    0 <= i0 < k && #[trigger] shifted(sample@[i0] as int, a) == j)) by {
                    if j == i {
                        assert(shifted(sample@[k - 1] as int, a) == j);
                    } else {
                        if self.field@[j].value == CellValue::Mine {
                            let i0 = choose|i0: int|
                                0 <= i0 < k - 1 && #[trigger] shifted(sample@[i0] as int, a) == j;
                            assert(0 <= i0 < k && shifted(sample@[i0] as int, a) == j);
                        } else {
                            if exists|i0: int|
                                0 <= i0 < k && #[trigger] shifted(sample@[i0] as int, a) == j {
                                let i0 = choose|i0: int|
                                    0 <= i0 < k && #[trigger] shifted(sample@[i0] as int, a) == j;
                                assert(i0 < k - 1);
                                assert(false);
                            }
                        }
                    }
                }
            }
        }

        // Number every non-mine cell with its mine-neighbor count; mine
        // positions never change during this pass, so the counts are
        // final.
        let ghost mined = self.field@;
        let mut r: usize = 0;
        while r < rows
            invariant
                self.dims_ok(),
                !self.initialized,
                self.rows == orig.rows,
                self.columns == orig.columns,
                self.mines == orig.mines,
                self.stats == orig.stats,
                orig.wf(),
                rows == self.rows,
                columns == self.columns,
                total == rows * columns,
                0 <= r <= rows,
                a == gidx(columns as int, pos(avoid)),
                0 <= a < total,
                self.field@.len() == total,
                forall|j: int|
                    0 <= j < self.field@.len() ==> (#[trigger] self.field@[j]).state
                        == State::Covered,
                forall|j: int|
                    0 <= j < self.field@.len() ==> ((#[trigger] self.field@[j]).value
                        == CellValue::Mine) == (mined[j].value == CellValue::Mine),
                forall|j: int|
                    0 <= j < mined.len() ==> ((#[trigger] mined[j]).value == CellValue::Mine <==> (
                    exists|i: int|
                        0 <= i < sample@.len() && #[trigger] shifted(sample@[i] as int, a) == j)),
                mined.len() == total,
                count_matching(self.field@, pred_mine()) == self.mines,
                count_matching(self.field@, pred_blank_uncovered()) == 0,
                count_matching(self.field@, pred_exploded()) == 0,
                sample@.len() == self.mines,
                forall|p: (int, int)|
                    in_grid(rows as int, columns as int, p) && p.0 < r && (#[trigger] cell_at(
                        self.field@,
                        columns as int,
                        p,
                    )).value != CellValue::Mine ==> cell_at(self.field@, columns as int, p).value
                        == CellValue::Number(
                        mine_neighbors(self.field@, rows as int, columns as int, p) as u32,
                    ),
            decreases rows - r,
        {
            let mut c: usize = 0;
            while c < columns
                invariant
                    self.dims_ok(),
                    !self.initialized,
                    self.rows == orig.rows,
                    self.columns == orig.columns,
                    self.mines == orig.mines,
                    self.stats == orig.stats,
                    orig.wf(),
                    rows == self.rows,
                    columns == self.columns,
                    total == rows * columns,
                    0 <= r < rows,
                    0 <= c <= columns,
                    a == gidx(columns as int, pos(avoid)),
                    0 <= a < total,
                    self.field@.len() == total,
                    forall|j: int|
                        0 <= j < self.field@.len() ==> (#[trigger] self.field@[j]).state
                            == State::Covered,
                    forall|j: int|
                        0 <= j < self.field@.len() ==> ((#[trigger] self.field@[j]).value
                            == CellValue::Mine) == (mined[j].value == CellValue::Mine),
                    forall|j: int|
                        0 <= j < mined.len() ==> ((#[trigger] mined[j]).value == CellValue::Mine
                            <==> (exists|i: int|
                            0 <= i < sample@.len() && #[trigger] shifted(sample@[i] as int, a)
                                == j)),
                    mined.len() == total,
                    count_matching(self.field@, pred_mine()) == self.mines,
                    count_matching(self.field@, pred_blank_uncovered()) == 0,
                    count_matching(self.field@, pred_exploded()) == 0,
                    sample@.len() == self.mines,
                    forall|p: (int, int)|
                        in_grid(rows as int, columns as int, p) && (p.0 < r || (p.0 == r && p.1
                            < c)) && (#[trigger] cell_at(self.field@, columns as int, p)).value
                            != CellValue::Mine ==> cell_at(self.field@, columns as int, p).value
                            == CellValue::Number(
                            mine_neighbors(self.field@, rows as int, columns as int, p) as u32,
                        ),
                decreases columns - c,
            {
                proof {
                    lemma_dims_fit(rows as int, columns as int);
                }
                let center = Coord(r as i32, c as i32);
                let i = self.get_index(center);
                let is_mine_here = matches!(self.field[i].value, CellValue::Mine);
                if !is_mine_here {
                    let mut cnt: u32 = 0;
                    let mut k: usize = 0;
                    while k < 8
                        invariant
                            self.dims_ok(),
                            rows == self.rows,
                            columns == self.columns,
                            0 <= r < rows,
                            0 <= c < columns,
                            0 <= k <= 8,
                            rows <= 0x3FFF_FFFF,
                            columns <= 0x3FFF_FFFF,
                            cnt == nbr_count_upto(
                                self.field@,
                                rows as int,
                                columns as int,
                                (r as int, c as int),
                                pred_mine(),
                                k as int,
                            ),
                            cnt <= k,
                        decreases 8 - k,
                    {
                        let d = direction(k);
                        let q = Coord((r as i32) + d.0, (c as i32) + d.1);
                        if self.in_field(q) {
                            let qi = self.get_index(q);
                            if matches!(self.field[qi].value, CellValue::Mine) {
                                cnt = cnt + 1;
                            }
                        }
                        k = k + 1;
                    }
                    proof {
                        lemma_nbr_count_upto_bounds(
                            self.field@,
                            rows as int,
                            columns as int,
                            (r as int, c as int),
                            pred_mine(),
                            8,
                        );
                        lemma_count_matching_update(
                            self.field@,
                            pred_mine(),
                            i as int,
                            Cell { value: CellValue::Number(cnt), state: State::Covered },
                        );
                        lemma_count_matching_update(
                            self.field@,
                            pred_blank_uncovered(),
                            i as int,
                            Cell { value: CellValue::Number(cnt), state: State::Covered },
                        );
                        lemma_count_matching_update(
                            self.field@,
                            pred_exploded(),
                            i as int,
                            Cell { value: CellValue::Number(cnt), state: State::Covered },
                        );
                    }
                    let ghost before = self.field@;
                    self.field[i] = Cell { value: CellValue::Number(cnt), state: State::Covered };
                    proof {
                        assert forall|q: (int, int)|
                            in_grid(rows as int, columns as int, q) implies pred_mine()(
                            #[trigger] cell_at(self.field@, columns as int, q),
                        ) == pred_mine()(cell_at(before, columns as int, q)) by {
                            lemma_row_major_bounds(q.0, q.1, rows as int, columns as int);
                        }
                        assert forall|p: (int, int)|
                            in_grid(rows as int, columns as int, p) && (p.0 < r || (p.0 == r && p.1
                                < c + 1)) && (#[trigger] cell_at(
                                self.field@,
                                columns as int,
                                p,
                            )).value != CellValue::Mine implies cell_at(
                            self.field@,
                            columns as int,
                            p,
                        ).value == CellValue::Number(
                            mine_neighbors(self.field@, rows as int, columns as int, p) as u32,
                        ) by {
                            lemma_row_major_bounds(p.0, p.1, rows as int, columns as int);
                            lemma_nbr_count_upto_congruence(
                                self.field@,
                                before,
                                rows as int,
                                columns as int,
                                p,
                                pred_mine(),
                                8,
                            );
                            if p != (r as int, c as int) {
                                lemma_row_major_injective(
                                    p.0,
                                    p.1,
                                    r as int,
                                    c as int,
                                    columns as int,
                                );
                            }
                        }
                    }
                }
                c = c + 1;
            }
            r = r + 1;
        }
        proof {
            lemma_count_matching_congruence(
                self.field@,
                pred_mine_not_uncovered(),
                pred_mine(),
            );
        }
        self.initialized = true;
        proof {
            assert(cell_at(self.field@, columns as int, pos(avoid)).value != CellValue::Mine) by {
                lemma_row_major_bounds(
                    pos(avoid).0,
                    pos(avoid).1,
                    rows as int,
                    columns as int,
                );
                if cell_at(self.field@, columns as int, pos(avoid)).value == CellValue::Mine {
                    let i0 = choose|i0: int|
                        0 <= i0 < sample@.len() && #[trigger] shifted(sample@[i0] as int, a) == a;
                }
            }
        }
    }

    /// Draw the mine positions from the process-wide random generator and
    /// seed the grid with them, never on the avoided cell. Runs at most
    /// once per field.
    pub fn initialize(&mut self, avoid: Coord)
        requires
            old(self).wf(),
            !old(self).initialized,
            old(self).spec_in_grid(avoid),
        ensures
            final(self).wf(),
            final(self).initialized,
            final(self).rows == old(self).rows,
            final(self).columns == old(self).columns,
            final(self).mines == old(self).mines,
            final(self).stats.uncovered_blank == 0,
            final(self).stats.covered_mine == old(self).mines,
            final(self).stats.exploded == 0,
            forall|j: int|
                0 <= j < final(self).field@.len() ==> (#[trigger] final(self).field@[j]).state
                    == State::Covered,
            count_matching(final(self).field@, pred_mine()) == final(self).mines,
            cell_at(final(self).field@, final(self).columns as int, pos(avoid)).value
                != CellValue::Mine,
            numbering_ok(final(self).field@, final(self).rows as int, final(self).columns as int),
    {
        let mut rng = new_rng();
        let total = self.rows * self.columns;
        let sample = sample_indices(&mut rng, total - 1, self.mines);
        self.place_mines(&sample, avoid);
    }

    /// Flood-fill reveal seeded at `seeds`: uncovers exactly the cells the
    /// seeds reach — covered seeds, the connected covered zero-valued
    /// region around them, and the one ring of covered cells bordering it
    /// — and nothing beyond. A cell is processed at most once, guarded by
    /// its covered state at dequeue time.
    #[verifier::rlimit(100)]
    fn flood_reveal(&mut self, seeds: Vec<Coord>)
        requires
            old(self).wf(),
            old(self).initialized,
            forall|i: int| 0 <= i < seeds@.len() ==> old(self).spec_in_grid(#[trigger] seeds@[i]),
        ensures
            final(self).wf(),
            final(self).initialized,
            final(self).rows == old(self).rows,
            final(self).columns == old(self).columns,
            final(self).mines == old(self).mines,
            final(self).field@.len() == old(self).field@.len(),
            forall|i: int|
                0 <= i < final(self).field@.len() ==> (#[trigger] final(self).field@[i]).value
                    == old(self).field@[i].value,
            forall|t: (int, int)|
                in_grid(old(self).rows as int, old(self).columns as int, t) ==> (
                #[trigger] cell_at(final(self).field@, old(self).columns as int, t)).state == (
                if reaches(
                    old(self).field@,
                    old(self).rows as int,
                    old(self).columns as int,
                    starts_of(seeds@),
                    t,
                ) {
                    State::Uncovered
                } else {
                    cell_at(old(self).field@, old(self).columns as int, t).state
                }),
    {
        let ghost g0 = old(self).field@;
        let ghost seeds0 = seeds@;
        let ghost startsf = starts_of(seeds0);
        let rows = self.rows;
        let columns = self.columns;
        let ghost rr = rows as int;
        let ghost cc = columns as int;
        let mut queue = seeds;
        let mut head: usize = 0;
        proof {
            assert forall|s: (int, int)| #[trigger] startsf(s) implies in_grid(rr, cc, s) && (
            cell_at(self.field@, cc, s).state != State::Covered || in_pending(
                queue@,
                head as int,
                s,
            )) by {
                let i = choose|i: int| 0 <= i < seeds0.len() && pos(#[trigger] seeds0[i]) == s;
                assert(0 <= i < queue@.len() && pos(queue@[i]) == s);
            }
            assert forall|j: int| 0 <= j < queue@.len() implies reaches(g0, rr, cc, startsf, pos(
                #[trigger] queue@[j],
            )) || cell_at(g0, cc, pos(queue@[j])).state != State::Covered by {
                if cell_at(g0, cc, pos(queue@[j])).state == State::Covered {
                    let pth = seq![pos(queue@[j])];
                    assert(reveal_path(g0, rr, cc, pth));
                    assert(startsf(pth[0]));
                    assert(pth.last() == pos(queue@[j]));
                    assert(reaches(g0, rr, cc, startsf, pos(queue@[j])));
                }
            }
        }
        while head < queue.len()
            invariant
                self.wf(),
                self.initialized,
                self.rows == rows,
                self.columns == columns,
                self.mines == old(self).mines,
                rows == old(self).rows,
                columns == old(self).columns,
                rr == rows as int,
                cc == columns as int,
                g0 == old(self).field@,
                startsf == starts_of(seeds0),
                g0.len() == rr * cc,
                self.field@.len() == g0.len(),
                0 <= head <= queue@.len(),
                forall|i: int|
                    0 <= i < self.field@.len() ==> (#[trigger] self.field@[i]).value
                        == g0[i].value,
                forall|j: int| 0 <= j < queue@.len() ==> in_grid(rr, cc, pos(#[trigger] queue@[j])),
                forall|j: int|
                    0 <= j < queue@.len() ==> reaches(g0, rr, cc, startsf, pos(
                        #[trigger] queue@[j],
                    )) || cell_at(g0, cc, pos(queue@[j])).state != State::Covered,
                forall|t: (int, int)|
                    in_grid(rr, cc, t) ==> ((#[trigger] cell_at(self.field@, cc, t)).state
                        == cell_at(g0, cc, t).state || (cell_at(g0, cc, t).state == State::Covered
                        && cell_at(self.field@, cc, t).state == State::Uncovered && reaches(
                        g0,
                        rr,
                        cc,
                        startsf,
                        t,
                    ))),
                forall|t: (int, int)|
                    in_grid(rr, cc, t) && (#[trigger] cell_at(self.field@, cc, t)).state
                        == State::Uncovered && cell_at(g0, cc, t).state == State::Covered
                        && cell_at(g0, cc, t).value == CellValue::Number(0) ==> (forall|
                        q: (int, int),
                    |
                        adjacent(t, q) && in_grid(rr, cc, q) ==> (#[trigger] cell_at(
                            self.field@,
                            cc,
                            q,
                        )).state != State::Covered || in_pending(queue@, head as int, q)),
                forall|s: (int, int)|
                    #[trigger] startsf(s) ==> in_grid(rr, cc, s) && (cell_at(
                        self.field@,
                        cc,
                        s,
                    ).state != State::Covered || in_pending(queue@, head as int, s)),
            decreases count_matching(self.field@, pred_covered()), queue@.len() - head,
        {
            let ghost inv_g = self.field@;
            let ghost inv_q = queue@;
            let ghost inv_h = head as int;
            let coord = queue[head];
            head = head + 1;
            let ghost cpos = pos(coord);
            let i = self.get_index(coord);
            let cell = self.field[i];
            if matches!(cell.state, State::Covered) {
                proof {
                    assert(cell == cell_at(inv_g, cc, cpos));
                    assert(cell_at(g0, cc, cpos).state == State::Covered);
                    assert(reaches(g0, rr, cc, startsf, cpos));
                    lemma_uncover_counts(self.field@, i as int);
                }
                if matches!(cell.value, CellValue::Mine) {
                    self.stats.covered_mine = self.stats.covered_mine - 1;
                } else {
                    self.stats.uncovered_blank = self.stats.uncovered_blank + 1;
                }
                let ghost pre = self.field@;
                self.field[i] = Cell { value: cell.value, state: State::Uncovered };
                proof {
                    lemma_numbering_values(self.field@, pre, rr, cc);
                    assert(count_matching(self.field@, pred_covered()) == count_matching(
                        inv_g,
                        pred_covered(),
                    ) - 1);
                    assert forall|t: (int, int)| in_grid(rr, cc, t) implies ((#[trigger] cell_at(
                        self.field@,
                        cc,
                        t,
                    )).state == cell_at(g0, cc, t).state || (cell_at(g0, cc, t).state
                        == State::Covered && cell_at(self.field@, cc, t).state == State::Uncovered
                        && reaches(g0, rr, cc, startsf, t))) by {
                        lemma_row_major_bounds(t.0, t.1, rr, cc);
                        if t != cpos {
                            lemma_row_major_injective(t.0, t.1, cpos.0, cpos.1, cc);
                            assert(cell_at(self.field@, cc, t) == cell_at(inv_g, cc, t));
                        } else {
                            assert(cell_at(self.field@, cc, t).state == State::Uncovered);
                        }
                    }
                }
                if cell.value == CellValue::Number(0) {
                    let ghost mid_g = self.field@;
                    let mut k: usize = 0;
                    while k < 8
                        invariant
                            self.wf(),
                            self.initialized,
                            self.rows == rows,
                            self.columns == columns,
                            self.mines == old(self).mines,
                            rows == old(self).rows,
                            columns == old(self).columns,
                            rr == rows as int,
                            cc == columns as int,
                            g0 == old(self).field@,
                            startsf == starts_of(seeds0),
                            g0.len() == rr * cc,
                            self.field@.len() == g0.len(),
                            self.field@ == mid_g,
                            0 <= k <= 8,
                            inv_h + 1 == head,
                            0 <= inv_h < inv_q.len(),
                            head <= queue@.len(),
                            inv_q.len() <= queue@.len(),
                            forall|j: int| 0 <= j < inv_q.len() ==> queue@[j] == #[trigger] inv_q[j],
                            in_grid(rr, cc, cpos),
                            cpos == pos(coord),
                            cell_at(g0, cc, cpos).value == CellValue::Number(0),
                            cell_at(g0, cc, cpos).state == State::Covered,
                            cell_at(self.field@, cc, cpos).state == State::Uncovered,
                            reaches(g0, rr, cc, startsf, cpos),
                            forall|i2: int|
                                0 <= i2 < self.field@.len() ==> (#[trigger] self.field@[i2]).value
                                    == g0[i2].value,
                            forall|j: int|
                                0 <= j < queue@.len() ==> in_grid(rr, cc, pos(
                                    #[trigger] queue@[j],
                                )),
                            forall|j: int|
                                0 <= j < queue@.len() ==> reaches(g0, rr, cc, startsf, pos(
                                    #[trigger] queue@[j],
                                )) || cell_at(g0, cc, pos(queue@[j])).state != State::Covered,
                            forall|t: (int, int)|
                                in_grid(rr, cc, t) ==> ((#[trigger] cell_at(
                                    self.field@,
                                    cc,
                                    t,
                                )).state == cell_at(g0, cc, t).state || (cell_at(g0, cc, t).state
                                    == State::Covered && cell_at(self.field@, cc, t).state
                                    == State::Uncovered && reaches(g0, rr, cc, startsf, t))),
                            forall|k2: int|
                                0 <= k2 < k ==> {
                                    let s = (
                                        cpos.0 + #[trigger] spec_directions()[k2].0,
                                        cpos.1 + spec_directions()[k2].1,
                                    );
                                    !in_grid(rr, cc, s) || cell_at(self.field@, cc, s).state
                                        != State::Covered || in_pending(queue@, head as int, s)
                                },
                        decreases 8 - k,
                    {
                        let d = direction(k);
                        proof {
                            lemma_dims_fit(rr, cc);
                        }
                        let q = Coord(coord.0 + d.0, coord.1 + d.1);
                        if self.in_field(q) {
                            let qi = self.get_index(q);
                            if matches!(self.field[qi].state, State::Covered) {
                                proof {
                                    assert(cell_at(g0, cc, pos(q)).state == State::Covered);
                                    assert(adjacent(cpos, pos(q)));
                                    lemma_reaches_extend(g0, rr, cc, startsf, cpos, pos(q));
                                }
                                let ghost q_before = queue@;
                                queue.push(q);
                                proof {
                                    assert(pos(queue@[queue@.len() - 1]) == pos(q));
                                    assert(in_pending(queue@, head as int, pos(q)));
                                    lemma_pending_push(q_before, queue@, head as int);
                                }
                            } else {
                                proof {
                                    assert(cell_at(self.field@, cc, pos(q)).state
                                        != State::Covered);
                                }
                            }
                        } else {
                            proof {
                                assert(!in_grid(rr, cc, pos(q)));
                            }
                        }
                        k = k + 1;
                        proof {
                            assert(pos(q) == (
                                cpos.0 + spec_directions()[k - 1].0,
                                cpos.1 + spec_directions()[k - 1].1,
                            ));
                        }
                    }
                    proof {
                        lemma_ring_closed(self.field@, rr, cc, queue@, head as int, cpos);
                    }
                }
            }
            proof {
                lemma_count_matching_bounds(self.field@, pred_covered());
                assert(cell_at(self.field@, cc, cpos).state != State::Covered);
                assert forall|t: (int, int)|
                    in_grid(rr, cc, t) && t != cpos implies cell_at(self.field@, cc, t) == cell_at(
                    inv_g,
                    cc,
                    t,
                ) by {
                    lemma_row_major_bounds(t.0, t.1, rr, cc);
                    lemma_row_major_injective(t.0, t.1, cpos.0, cpos.1, cc);
                }
                lemma_reveal_iteration(
                    g0,
                    inv_g,
                    self.field@,
                    rr,
                    cc,
                    startsf,
                    inv_q,
                    queue@,
                    inv_h,
                    head as int,
                    cpos,
                );
            }
        }
        proof {
            assert forall|t: (int, int)|
                in_grid(rr, cc, t) && reaches(g0, rr, cc, startsf, t) implies cell_at(
                self.field@,
                cc,
                t,
            ).state == State::Uncovered by {
                let pth = choose|pth: Seq<(int, int)>|
                    #[trigger] reveal_path(g0, rr, cc, pth) && startsf(pth[0]) && pth.last() == t;
                lemma_path_uncovered(g0, self.field@, rr, cc, startsf, pth);
            }
        }
    }

    /// Flood-fill reveal seeded at every in-grid neighbor of `coord`.
    fn reveal_around(&mut self, coord: Coord)
        requires
            old(self).wf(),
            old(self).initialized,
            old(self).spec_in_grid(coord),
        ensures
            final(self).wf(),
            final(self).initialized,
            final(self).rows == old(self).rows,
            final(self).columns == old(self).columns,
            final(self).mines == old(self).mines,
            final(self).field@.len() == old(self).field@.len(),
            forall|i: int|
                0 <= i < final(self).field@.len() ==> (#[trigger] final(self).field@[i]).value
                    == old(self).field@[i].value,
            forall|t: (int, int)|
                in_grid(old(self).rows as int, old(self).columns as int, t) ==> (
                #[trigger] cell_at(final(self).field@, old(self).columns as int, t)).state == (
                if reaches(
                    old(self).field@,
                    old(self).rows as int,
                    old(self).columns as int,
                    starts_around(pos(coord), old(self).rows as int, old(self).columns as int),
                    t,
                ) {
                    State::Uncovered
                } else {
                    cell_at(old(self).field@, old(self).columns as int, t).state
                }),
    {
        let ghost rr = self.rows as int;
        let ghost cc = self.columns as int;
        let ghost cpos = pos(coord);
        let mut seeds: Vec<Coord> = Vec::new();
        let mut k: usize = 0;
        while k < 8
            invariant
                self.wf(),
                self.spec_in_grid(coord),
                rr == self.rows as int,
                cc == self.columns as int,
                cpos == pos(coord),
                0 <= k <= 8,
                forall|i: int|
                    0 <= i < seeds@.len() ==> in_grid(rr, cc, pos(#[trigger] seeds@[i]))
                        && adjacent(cpos, pos(seeds@[i])),
                forall|k2: int|
                    0 <= k2 < k ==> {
                        let s = (
                            cpos.0 + #[trigger] spec_directions()[k2].0,
                            cpos.1 + spec_directions()[k2].1,
                        );
                        !in_grid(rr, cc, s) || starts_of(seeds@)(s)
                    },
            decreases 8 - k,
        {
            let d = direction(k);
            proof {
                lemma_dims_fit(rr, cc);
            }
            let q = Coord(coord.0 + d.0, coord.1 + d.1);
            if self.in_field(q) {
                let ghost s_before = seeds@;
                seeds.push(q);
                proof {
                    assert(pos(seeds@[seeds@.len() - 1]) == pos(q));
                    assert(starts_of(seeds@)(pos(q)));
                    assert forall|s2: (int, int)| #[trigger] starts_of(s_before)(
                        s2,
                    ) implies starts_of(seeds@)(s2) by {
                        let i = choose|i: int|
                            0 <= i < s_before.len() && pos(#[trigger] s_before[i]) == s2;
                        assert(pos(seeds@[i]) == s2);
                    }
                }
            }
            k = k + 1;
            proof {
                assert(pos(q) == (
                    cpos.0 + spec_directions()[k - 1].0,
                    cpos.1 + spec_directions()[k - 1].1,
                ));
            }
        }
        let ghost s0 = seeds@;
        proof {
            assert forall|s: (int, int)| #[trigger] starts_of(s0)(s) == starts_around(
                cpos,
                rr,
                cc,
            )(s) by {
                if starts_of(s0)(s) {
                    let i = choose|i: int| 0 <= i < s0.len() && pos(#[trigger] s0[i]) == s;
                }
                if starts_around(cpos, rr, cc)(s) {
                    lemma_adjacent_directions(cpos, s);
                    let k2 = choose|k2: int|
                        0 <= k2 < 8 && s == (
                            cpos.0 + #[trigger] spec_directions()[k2].0,
                            cpos.1 + spec_directions()[k2].1,
                        );
                }
            }
        }
        self.flood_reveal(seeds);
        proof {
            let g0 = old(self).field@;
            assert forall|t: (int, int)| in_grid(rr, cc, t) implies (#[trigger] cell_at(
                self.field@,
                cc,
                t,
            )).state == (if reaches(g0, rr, cc, starts_around(cpos, rr, cc), t) {
                State::Uncovered
            } else {
                cell_at(g0, cc, t).state
            }) by {
                if reaches(g0, rr, cc, starts_around(cpos, rr, cc), t) {
                    lemma_reaches_congruence(
                        g0,
                        rr,
                        cc,
                        starts_around(cpos, rr, cc),
                        starts_of(s0),
                        t,
                    );
                }
                if reaches(g0, rr, cc, starts_of(s0), t) {
                    lemma_reaches_congruence(
                        g0,
                        rr,
                        cc,
                        starts_of(s0),
                        starts_around(cpos, rr, cc),
                        t,
                    );
                }
            }
        }
    }

    /// What `uncover_around` counts among a cell's neighbors: cells
    /// still covered. (An exploded neighbor — a defensive state — counts
    /// neither here nor among the uncovered mines, so a chord that acts
    /// always uncovers at least one cell.)
    pub open spec fn chord_covered(self, coord: Coord) -> int {
        nbr_count(self.field@, self.rows as int, self.columns as int, pos(coord),
            pred_covered())
    }

    /// What `uncover_around` counts among a cell's neighbors: mines
    /// already uncovered (a defensive case; zero in normal play).
    pub open spec fn chord_uncovered_mines(self, coord: Coord) -> int {
        nbr_count(self.field@, self.rows as int, self.columns as int, pos(coord),
            pred_uncovered_mine())
    }

    /// When the chord acts: on a numbered cell with at least one
    /// not-yet-uncovered neighbor, whose number matches either the
    /// uncovered mines alone or all unresolved neighbors together.
    pub open spec fn chord_applies(self, coord: Coord) -> bool {
        match cell_at(self.field@, self.columns as int, pos(coord)).value {
            CellValue::Mine => false,
            CellValue::Number(v) => self.chord_covered(coord) != 0 && (self.chord_uncovered_mines(
                coord,
            ) == v || self.chord_covered(coord) + self.chord_uncovered_mines(coord) == v),
        }
    }

    /// The chord ("reveal around"): on a numbered cell whose neighbor
    /// counts are locally consistent, flood-reveal every neighbor; in any
    /// other case change nothing. Returns whether the field changed.
    pub fn uncover_around(&mut self, coord: Coord) -> (changed: bool)
        requires
            old(self).wf(),
            old(self).initialized,
            old(self).spec_in_grid(coord),
        ensures
            final(self).wf(),
            final(self).initialized,
            final(self).rows == old(self).rows,
            final(self).columns == old(self).columns,
            final(self).mines == old(self).mines,
            final(self).field@.len() == old(self).field@.len(),
            changed == old(self).chord_applies(coord),
            !changed ==> *final(self) == *old(self),
            forall|i: int|
                0 <= i < final(self).field@.len() ==> (#[trigger] final(self).field@[i]).value
                    == old(self).field@[i].value,
            changed ==> (forall|t: (int, int)|
                in_grid(old(self).rows as int, old(self).columns as int, t) ==> (
                #[trigger] cell_at(final(self).field@, old(self).columns as int, t)).state == (
                if reaches(
                    old(self).field@,
                    old(self).rows as int,
                    old(self).columns as int,
                    starts_around(pos(coord), old(self).rows as int, old(self).columns as int),
                    t,
                ) {
                    State::Uncovered
                } else {
                    cell_at(old(self).field@, old(self).columns as int, t).state
                })),
    {
        let ghost rr = self.rows as int;
        let ghost cc = self.columns as int;
        let ghost cpos = pos(coord);
        let i = self.get_index(coord);
        match self.field[i].value {
            CellValue::Mine => false,
            CellValue::Number(value) => {
                let mut covered: u32 = 0;
                let mut uncovered_mines: u32 = 0;
                let mut k: usize = 0;
                while k < 8
                    invariant
                        self.wf(),
                        self.spec_in_grid(coord),
                        rr == self.rows as int,
                        cc == self.columns as int,
                        cpos == pos(coord),
                        0 <= k <= 8,
                        covered <= k,
                        uncovered_mines <= k,
                        covered == nbr_count_upto(
                            self.field@,
                            rr,
                            cc,
                            cpos,
                            pred_covered(),
                            k as int,
                        ),
                        uncovered_mines == nbr_count_upto(
                            self.field@,
                            rr,
                            cc,
                            cpos,
                            pred_uncovered_mine(),
                            k as int,
                        ),
                    decreases 8 - k,
                {
                    let d = direction(k);
                    proof {
                        lemma_dims_fit(rr, cc);
                    }
                    let q = Coord(coord.0 + d.0, coord.1 + d.1);
                    if self.in_field(q) {
                        let qi = self.get_index(q);
                        let c = self.field[qi];
                        match c.state {
                            State::Covered => {
                                covered = covered + 1;
                            },
                            State::Uncovered => {
                                if matches!(c.value, CellValue::Mine) {
                                    uncovered_mines = uncovered_mines + 1;
                                }
                            },
                            State::Exploded => {},
                        }
                    }
                    k = k + 1;
                }
                if covered == 0 {
                    false
                } else if uncovered_mines == value || covered + uncovered_mines == value {
                    self.reveal_around(coord);
                    true
                } else {
                    false
                }
            },
        }
    }

    /// Uncover one covered cell: a mine explodes and ends the field's
    /// normal play; anything else starts a flood-fill reveal at the cell.
    pub fn uncover(&mut self, coord: Coord)
        requires
            old(self).wf(),
            old(self).initialized,
            old(self).spec_in_grid(coord),
            cell_at(old(self).field@, old(self).columns as int, pos(coord)).state
                == State::Covered,
        ensures
            final(self).wf(),
            final(self).initialized,
            final(self).rows == old(self).rows,
            final(self).columns == old(self).columns,
            final(self).mines == old(self).mines,
            final(self).field@.len() == old(self).field@.len(),
            forall|i: int|
                0 <= i < final(self).field@.len() ==> (#[trigger] final(self).field@[i]).value
                    == old(self).field@[i].value,
            cell_at(old(self).field@, old(self).columns as int, pos(coord)).value
                == CellValue::Mine ==> final(self).field@ == old(self).field@.update(
                gidx(old(self).columns as int, pos(coord)),
                Cell { value: CellValue::Mine, state: State::Exploded },
            ),
            cell_at(old(self).field@, old(self).columns as int, pos(coord)).value
                == CellValue::Mine ==> final(self).stats.exploded == old(self).stats.exploded + 1
                && final(self).stats.uncovered_blank == old(self).stats.uncovered_blank
                && final(self).stats.covered_mine == old(self).stats.covered_mine,
            cell_at(old(self).field@, old(self).columns as int, pos(coord)).value
                != CellValue::Mine ==> (forall|t: (int, int)|
                in_grid(old(self).rows as int, old(self).columns as int, t) ==> (
                #[trigger] cell_at(final(self).field@, old(self).columns as int, t)).state == (
                if reaches(
                    old(self).field@,
                    old(self).rows as int,
                    old(self).columns as int,
                    start_at(coord),
                    t,
                ) {
                    State::Uncovered
                } else {
                    cell_at(old(self).field@, old(self).columns as int, t).state
                })),
    {
        let i = self.get_index(coord);
        let cell = self.field[i];
        if matches!(cell.value, CellValue::Mine) {
            proof {
                lemma_count_matching_bounds(self.field@, pred_exploded());
                lemma_count_matching_update(
                    self.field@,
                    pred_blank_uncovered(),
                    i as int,
                    Cell { value: CellValue::Mine, state: State::Exploded },
                );
                lemma_count_matching_update(
                    self.field@,
                    pred_mine_not_uncovered(),
                    i as int,
                    Cell { value: CellValue::Mine, state: State::Exploded },
                );
                lemma_count_matching_update(
                    self.field@,
                    pred_exploded(),
                    i as int,
                    Cell { value: CellValue::Mine, state: State::Exploded },
                );
                lemma_count_matching_update(
                    self.field@,
                    pred_mine(),
                    i as int,
                    Cell { value: CellValue::Mine, state: State::Exploded },
                );
            }
            self.stats.exploded = self.stats.exploded + 1;
            let ghost pre = self.field@;
            self.field[i] = Cell { value: CellValue::Mine, state: State::Exploded };
            proof {
                lemma_numbering_values(self.field@, pre, self.rows as int, self.columns as int);
            }
        } else {
            let mut seeds: Vec<Coord> = Vec::new();
            seeds.push(coord);
            let ghost s0 = seeds@;
            self.flood_reveal(seeds);
            proof {
                assert forall|s: (int, int)| #[trigger] starts_of(s0)(s) == start_at(coord)(
                    s,
                ) by {
                    if starts_of(s0)(s) {
                        let i2 = choose|i2: int| 0 <= i2 < s0.len() && pos(#[trigger] s0[i2]) == s;
                    }
                    if start_at(coord)(s) {
                        assert(pos(s0[0]) == s);
                    }
                }
                let rr = old(self).rows as int;
                let cc = old(self).columns as int;
                let g0 = old(self).field@;
                assert forall|t: (int, int)|
                    in_grid(rr, cc, t) implies (#[trigger] cell_at(self.field@, cc, t)).state == (
                if reaches(g0, rr, cc, start_at(coord), t) {
                    State::Uncovered
                } else {
                    cell_at(g0, cc, t).state
                }) by {
                    if reaches(g0, rr, cc, start_at(coord), t) {
                        lemma_reaches_congruence(g0, rr, cc, start_at(coord), starts_of(s0), t);
                    }
                    if reaches(g0, rr, cc, starts_of(s0), t) {
                        lemma_reaches_congruence(g0, rr, cc, starts_of(s0), start_at(coord), t);
                    }
                }
            }
        }
    }
}

/// A grid none of whose cells exploded counts zero explosions.
pub proof fn lemma_no_exploded_count(g: Seq<Cell>, rows: int, cols: int)
    requires
        1 <= rows,
        1 <= cols,
        g.len() == rows * cols,
        forall|t: (int, int)|
            in_grid(rows, cols, t) ==> (#[trigger] cell_at(g, cols, t)).state != State::Exploded,
    ensures
        count_matching(g, pred_exploded()) == 0,
{
    assert forall|i: int| 0 <= i < g.len() implies !pred_exploded()(#[trigger] g[i]) by {
        let t = (i / cols, i % cols);
        assert(in_grid(rows, cols, t)) by {
            assert(0 <= i / cols < rows && 0 <= i % cols < cols) by (nonlinear_arith)
                requires
                    0 <= i < rows * cols,
                    0 < cols,
            ;
        }
        assert(gidx(cols, t) == i) by {
            assert(i / cols * cols + i % cols == i) by (nonlinear_arith)
                requires
                    0 < cols,
            ;
        }
        assert(cell_at(g, cols, t) == g[i]);
    }
    lemma_count_matching_zero(g, pred_exploded());
}

/// In a well-formed field every numbered cell shows at most 8: its mine
/// neighbors all lie among the 8 Moore offsets.
pub proof fn lemma_cell_number_bounded(f: MineField, p: (int, int))
    requires
        f.wf(),
        in_grid(f.rows as int, f.columns as int, p),
    ensures
        match cell_at(f.field@, f.columns as int, p).value {
            CellValue::Mine => true,
            CellValue::Number(n) => n <= 8,
        },
{
    lemma_row_major_bounds(p.0, p.1, f.rows as int, f.columns as int);
    if f.initialized {
        if cell_at(f.field@, f.columns as int, p).value != CellValue::Mine {
            lemma_nbr_count_upto_bounds(
                f.field@,
                f.rows as int,
                f.columns as int,
                p,
                pred_mine(),
                8,
            );
        }
    }
}

/// Where a sampled index lands after stepping over the avoided cell: the
/// sample is drawn from a grid with that one cell removed, so indices at
/// or past it shift up by one.
pub open spec fn shifted(s: int, avoid: int) -> int {
    if s >= avoid {
        s + 1
    } else {
        s
    }
}

/// Relies on `rand::rngs::ThreadRng`: the handle type of the process-wide
/// random generator that mine placement draws from.
#[verifier::external_type_specification]
#[verifier::external_body]
pub struct ExThreadRng(rand::rngs::ThreadRng);

/// Relies on `rand::thread_rng` for a handle to the process-wide random
/// generator. Nothing is promised of the handle itself.
#[verifier::external_body]
fn new_rng() -> rand::rngs::ThreadRng {
    rand::thread_rng()
}

/// Relies on `rand::seq::index::sample`: it returns exactly `amount`
/// distinct indices drawn from `0..length`, in random order, and panics
/// when `amount` exceeds `length`. Which indices come back is random, so
/// only length, range and distinctness are stated.
#[verifier::external_body]
fn sample_indices(rng: &mut rand::rngs::ThreadRng, length: usize, amount: usize) -> (v: Vec<usize>)
    requires
        amount <= length,
    ensures
        v@.len() == amount,
        forall|i: int| 0 <= i < v@.len() ==> #[trigger] v@[i] < length,
        forall|i: int, j: int| 0 <= i < j < v@.len() ==> v@[i] != v@[j],
{
    rand::seq::index::sample(rng, length, amount).into_vec()
}

} // verus!
